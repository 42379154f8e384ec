//! What a clustered node keeps, and how it routes a request by it.
use vstd::prelude::*;

use crate::cluster::membership_view;
use crate::cluster::Membership;
use crate::cluster::MembershipView;
use crate::forward::Channel;
use crate::forward::ChannelView;
use crate::forward::ForwardTarget;
use crate::forward::TargetView;
use crate::key::key_views;
use crate::key::Key;
use crate::key::KeyView;
use crate::leave::law_destination_is_a_new_owner;
use crate::leave::target_view;
use crate::leave::LeaveState;
use crate::leave::LeaveView;
use crate::message::ClearScope;
use crate::migration::expire_slot;
use crate::migration::live_slot;
use crate::migration::reverted;
use crate::migration::scope_views;
use crate::migration::slot_view;
use crate::migration::ActiveMigration;
use crate::migration::SlotView;
use crate::ring::joined_by;
use crate::ring::law_join_displaces_at_most_the_last_owner;
use crate::ring::owns;
use crate::text::same_text;

verus! {

/// What a node that is part of a cluster keeps.
#[derive(Debug)]
pub struct NodeContext {
    /// The node's name, one of its own for each run.
    pub name: String,
    /// What proves that a request comes from discovery or from a peer that
    /// discovery told about the node.
    pub token: String,
    pub active_migration: Option<ActiveMigration>,
    pub known_ring: Option<Membership>,
    pub leaving: Option<LeaveState>,
}

#[verifier::ext_equal]
pub struct NodeView {
    pub name: Seq<char>,
    pub token: Seq<char>,
    pub slot: Option<SlotView>,
    pub known: Option<MembershipView>,
    pub leaving: Option<LeaveView>,
}

impl View for NodeContext {
    type V = NodeView;

    open spec fn view(&self) -> NodeView {
        NodeView {
            name: self.name@,
            token: self.token@,
            slot: slot_view(self.active_migration),
            known: membership_view(self.known_ring),
            leaving: match self.leaving {
                Some(leave) => Some(leave@),
                None => None,
            },
        }
    }
}

/// The view of a node that may be on its own.
pub open spec fn node_view(node: Option<NodeContext>) -> Option<NodeView> {
    match node {
        Some(context) => Some(context@),
        None => None,
    }
}

impl NodeView {
    /// The node with what is over cleared from its slot.
    pub open spec fn swept(self, now: u128) -> NodeView {
        NodeView { slot: live_slot(self.slot, now), ..self }
    }

    /// Whether the node believes that a key is not its own.
    pub open spec fn displaced(self, key: KeyView) -> bool {
        match self.known {
            Some(membership) => !owns(
                membership.ring.nodes,
                key,
                self.name,
                membership.replication,
            ),
            None => false,
        }
    }

    /// Whether a key is served here although the handoff has moved it: its join
    /// is not confirmed, so that clients cannot know of its new owner.
    pub open spec fn serves_for_join(self, key: KeyView, now: u128) -> bool {
        match live_slot(self.slot, now) {
            Some(active) => !active.confirmed && active.forwards(now) && active.joiner_owns(key),
            None => false,
        }
    }

    /// Whether a request for a key is turned away.
    pub open spec fn turns_away(self, key: KeyView, now: u128) -> bool {
        self.displaced(key) && !self.serves_for_join(key, now)
    }

    /// Where a write for a key goes as well, because of a handoff.
    pub open spec fn join_target(self, key: KeyView, now: u128) -> Option<TargetView> {
        match live_slot(self.slot, now) {
            Some(active) => if active.forwards(now) && active.joiner_owns(key) {
                Some(joiner_target(active))
            } else {
                None
            },
            None => None,
        }
    }

    /// Where a write for a key goes as well, because the node leaves.
    pub open spec fn leave_target(self, key: KeyView) -> Option<TargetView> {
        match self.leaving {
            Some(leave) => leave.destination(key, self.name),
            None => None,
        }
    }
}

/// All that is forwarded during one handoff goes to one place and over one
/// connection, whatever the key.
pub proof fn law_forwards_of_a_handoff_share_a_connection(
    node: NodeView,
    key: KeyView,
    other: KeyView,
    now: u128,
    later: u128,
)
    requires
        node.join_target(key, now) is Some,
        node.join_target(other, later) is Some,
    ensures
        node.join_target(key, now) == node.join_target(other, later),
{
}

/// How the joining node of a handoff is reached.
pub open spec fn joiner_target(slot: SlotView) -> TargetView {
    TargetView {
        addr: slot.joining_addr,
        token: slot.joining_token,
        channel: ChannelView::Joiner(slot.after_ring.id),
    }
}

fn target_of(active: &ActiveMigration) -> (target: ForwardTarget)
    ensures
        target@ == joiner_target(active@),
{
    ForwardTarget {
        addr: active.joining_addr.clone(),
        token: active.joining_token.clone(),
        channel: Channel::Joiner(active.after_ring.id),
    }
}

/// Whether a key is served here for the sake of a join that is not confirmed.
pub fn serving_locally_for_unconfirmed_join(
    node_context: &mut NodeContext,
    key: &Key,
    now: u128,
) -> (serving: bool)
    ensures
        serving == old(node_context)@.serves_for_join(key@, now),
        final(node_context)@ == old(node_context)@.swept(now),
{
    expire_slot(&mut node_context.active_migration, now);
    match node_context.active_migration.as_ref() {
        Some(active) => !active.confirmed && active.forwarding_open(now)
            && active.after_ring.ring.is_owner(
            key,
            active.joining_name.as_str(),
            active.replication,
        ),
        None => false,
    }
}

/// Whether a request for a key is turned away, since another node owns it.
pub fn wrong_node(node_context: &mut NodeContext, key: &Key, now: u128) -> (wrong: bool)
    ensures
        wrong == old(node_context)@.turns_away(key@, now),
        final(node_context)@ == if old(node_context)@.displaced(key@) {
            old(node_context)@.swept(now)
        } else {
            old(node_context)@
        },
{
    let displaced = match node_context.known_ring.as_ref() {
        Some(membership) => !membership.ring.ring.is_owner(
            key,
            node_context.name.as_str(),
            membership.replication,
        ),
        None => false,
    };
    displaced && !serving_locally_for_unconfirmed_join(node_context, key, now)
}

/// Where a write for a key goes as well, because of a handoff.
pub fn migration_target_for(node_context: &mut NodeContext, key: &Key, now: u128) -> (target:
    Option<ForwardTarget>)
    ensures
        target_view(target) == old(node_context)@.join_target(key@, now),
        final(node_context)@ == old(node_context)@.swept(now),
{
    expire_slot(&mut node_context.active_migration, now);
    match node_context.active_migration.as_ref() {
        Some(active) => {
            if active.forwarding_open(now) && active.after_ring.ring.is_owner(
                key,
                active.joining_name.as_str(),
                active.replication,
            ) {
                Some(target_of(active))
            } else {
                None
            }
        },
        None => None,
    }
}

/// What a clear does besides clearing this node.
#[derive(Debug)]
pub enum ClearRoute {
    /// Nothing.
    Local,
    /// It waits for its place among the keys that are handed over.
    Queued,
    Forward(ForwardTarget),
}

/// Routes a clear: while a handoff transfers it is queued behind what has been
/// sent, afterwards it is forwarded like a write, and then no more.
pub fn route_clear(node_context: &mut NodeContext, scope: &ClearScope, now: u128) -> (route:
    ClearRoute)
    ensures
        match live_slot(old(node_context)@.slot, now) {
            None => route is Local && final(node_context)@ == old(node_context)@.swept(now),
            Some(active) => if active.completed_at is None {
                &&& route is Queued
                &&& final(node_context)@ == (NodeView {
                    slot: Some(
                        SlotView { pending_clears: active.pending_clears.push(scope@), ..active },
                    ),
                    ..old(node_context)@
                })
            } else if active.forwards(now) {
                &&& route matches ClearRoute::Forward(target) && target@ == joiner_target(active)
                &&& final(node_context)@ == old(node_context)@
            } else {
                route is Local && final(node_context)@ == old(node_context)@
            },
        },
{
    expire_slot(&mut node_context.active_migration, now);
    match node_context.active_migration.as_mut() {
        Some(active) => {
            if active.completed_at.is_none() {
                let ghost before = active.pending_clears@;
                active.pending_clears.push(scope.clone());
                assert(scope_views(active.pending_clears@) =~= scope_views(before).push(scope@));
                return ClearRoute::Queued;
            }
            if !active.forwarding_open(now) {
                return ClearRoute::Local;
            }
            ClearRoute::Forward(target_of(active))
        },
        None => ClearRoute::Local,
    }
}

/// What an abandoned join leaves of a node.
pub open spec fn abandoned(node: NodeView, joining_name: Seq<char>) -> NodeView {
    match node.slot {
        Some(active) => if active.joining_name != joining_name {
            node
        } else if active.completed_at is Some {
            NodeView { slot: None, known: reverted(node.known, active), ..node }
        } else {
            NodeView { slot: Some(SlotView { abort_requested: true, ..active }), ..node }
        },
        None => node,
    }
}

/// Gives up the handoff to `joining_name`, if it is the one in the slot. One
/// that is still transferring is asked to stop, and takes its own marks back;
/// of one that is done the marked copies are handed back to be restored, and
/// the ring believed before it is believed again.
pub fn abandon_migration(node_context: &mut NodeContext, joining_name: &str) -> (restore: Option<
    Vec<Key>,
>)
    ensures
        final(node_context)@ == abandoned(old(node_context)@, joining_name@),
        match old(node_context)@.slot {
            Some(active) => if active.joining_name == joining_name@ && active.completed_at is Some {
                restore matches Some(keys) && key_views(keys@) == active.marked_keys
            } else {
                restore is None
            },
            None => restore is None,
        },
{
    let matching = match node_context.active_migration.as_ref() {
        Some(active) => same_text(active.joining_name.as_str(), joining_name),
        None => false,
    };
    if !matching {
        return None;
    }
    match node_context.active_migration.take() {
        Some(mut active) => {
            if active.completed_at.is_none() {
                active.abort_requested = true;
                node_context.active_migration = Some(active);
                return None;
            }
            let reverts = match node_context.known_ring.as_ref() {
                Some(current) => current.ring.id == active.after_ring.id,
                None => false,
            };
            if reverts {
                node_context.known_ring = active.pre_completion_ring;
            }
            Some(active.marked_keys)
        },
        None => None,
    }
}

/// A join is invisible to clients until it is confirmed: a key that the node
/// owned before is served all through the handoff, also once the node has taken
/// the join for granted.
pub proof fn law_unconfirmed_join_is_invisible(
    node: NodeView,
    slot: SlotView,
    before: Seq<Seq<char>>,
    key: KeyView,
    now: u128,
)
    requires
        node.slot == Some(slot),
        node.known matches Some(known) && known.ring.nodes == slot.after_ring.nodes
            && known.replication == slot.replication,
        joined_by(before, slot.after_ring.nodes, slot.joining_name),
        owns(before, key, node.name, slot.replication),
        !slot.confirmed,
        slot.forwards(now),
    ensures
        !node.turns_away(key, now),
        node.displaced(key) ==> node.join_target(key, now) is Some,
{
    law_join_displaces_at_most_the_last_owner(
        before,
        slot.after_ring.nodes,
        slot.joining_name,
        key,
        slot.replication,
    );
}

/// Once the join is confirmed, a key that the node does not own any more is
/// turned away, so that clients go to its new owner; writes that still come in
/// for the joining node are forwarded until the grace is over.
pub proof fn law_confirmed_join_routes_to_the_new_owner(
    node: NodeView,
    slot: SlotView,
    key: KeyView,
    now: u128,
)
    requires
        node.slot == Some(slot),
        slot.confirmed,
    ensures
        node.turns_away(key, now) <==> node.displaced(key),
        node.join_target(key, now) is Some <==> slot.forwards(now) && slot.joiner_owns(key),
{
}

/// Giving up a handoff that is done puts the node back where it was: what it
/// believed before is believed again, unless it has learned better since, its
/// slot is free, and what it owned then it serves again.
pub proof fn law_abandoning_restores_the_belief(node: NodeView, slot: SlotView, key: KeyView, now: u128)
    requires
        node.slot == Some(slot),
        slot.completed_at is Some,
        node.known matches Some(known) && known.ring.id == slot.after_ring.id,
    ensures
        ({
            let after = abandoned(node, slot.joining_name);
            &&& after.slot is None
            &&& after.known == slot.pre_completion_ring
            &&& slot.pre_completion_ring matches Some(previous) ==> owns(
                previous.ring.nodes,
                key,
                node.name,
                previous.replication,
            ) ==> !after.turns_away(key, now)
        }),
{
}

/// A second abandon of the same join changes nothing more.
pub proof fn law_abandoning_twice_is_abandoning_once(node: NodeView, joining_name: Seq<char>)
    ensures
        abandoned(abandoned(node, joining_name), joining_name) == abandoned(node, joining_name),
{
}

/// What the periodic sweep does.
#[derive(Clone, Copy, Debug, PartialEq, Eq, Structural)]
pub enum SweepAction {
    /// Nothing, while entries are being transferred.
    Pause,
    /// Removes what has expired, and the marked copies if `marked` says so.
    Sweep { marked: bool },
}

/// Decides on a sweep. Marked copies are kept until the join they were marked
/// for is confirmed.
pub fn sweep_action(slot: &Option<ActiveMigration>) -> (action: SweepAction)
    ensures
        action == match slot_view(*slot) {
            Some(active) => if active.completed_at is None {
                SweepAction::Pause
            } else {
                SweepAction::Sweep { marked: active.confirmed }
            },
            None => SweepAction::Sweep { marked: true },
        },
{
    match slot {
        Some(active) => {
            if active.completed_at.is_none() {
                SweepAction::Pause
            } else {
                SweepAction::Sweep { marked: active.confirmed }
            }
        },
        None => SweepAction::Sweep { marked: true },
    }
}

/// Whether to sweep on at once: when a pass removed all that its budget allows.
/// A pass of the cache that did not answer ends the round.
pub fn sweeps_again(removed: Option<usize>, budget: usize) -> (again: bool)
    ensures
        again == match removed {
            Some(count) => count >= budget,
            None => false,
        },
{
    match removed {
        Some(count) => count >= budget,
        None => false,
    }
}

/// Whether the node is ready for clients: outside a cluster always, in one from
/// the time it knows who is in it until it leaves.
pub open spec fn serves_clients(node: Option<NodeView>) -> bool {
    match node {
        Some(context) => context.known is Some && context.leaving is None,
        None => true,
    }
}

/// Tells whether the node is ready for clients; one outside a cluster has no
/// context.
pub fn is_ready(node: &Option<NodeContext>) -> (ready: bool)
    ensures
        ready == serves_clients(node_view(*node)),
{
    match node {
        Some(context) => context.known_ring.is_some() && context.leaving.is_none(),
        None => true,
    }
}

/// A key that the node believes to be another node's is turned away, whatever
/// its slot holds, unless a handoff moves that very key to the joining node,
/// still forwards, and is not confirmed. A key of its own is never turned away,
/// and none is before the node knows of a ring.
pub proof fn law_only_a_moving_key_is_served_for_another(node: NodeView, key: KeyView, now: u128)
    ensures
        node.known is None ==> !node.turns_away(key, now),
        node.known matches Some(known) ==> {
            let own = owns(known.ring.nodes, key, node.name, known.replication);
            &&& own ==> !node.turns_away(key, now)
            &&& !own && node.slot is None ==> node.turns_away(key, now)
            &&& node.slot matches Some(slot) ==> !own ==> (!node.turns_away(key, now)
                <==> !slot.confirmed && owns(
                slot.after_ring.nodes,
                key,
                slot.joining_name,
                slot.replication,
            ) && (slot.completed_at matches Some(at) ==> slot.forwarding_grace > 0 && now < at
                + slot.forwarding_grace))
        },
{
}

/// A key that a handoff does not move is turned away by a node that does not own
/// it, in every state of the slot.
pub proof fn law_handoff_serves_no_other_key(
    node: NodeView,
    slot: SlotView,
    key: KeyView,
    now: u128,
)
    requires
        node.displaced(key),
        node.slot == Some(slot),
        !owns(slot.after_ring.nodes, key, slot.joining_name, slot.replication),
    ensures
        node.turns_away(key, now),
        !node.serves_for_join(key, now),
        node.join_target(key, now) is None,
{
}

/// A write is passed on to a joining node just while its handoff forwards and
/// just for keys that the joining node comes to own. It goes to that node's own
/// address, with that node's own token, and over the connection of that handoff.
pub proof fn law_writes_follow_moving_keys_only(node: NodeView, key: KeyView, now: u128)
    ensures
        node.slot is None ==> node.join_target(key, now) is None,
        node.slot matches Some(slot) ==> {
            &&& node.join_target(key, now) is Some <==> owns(
                slot.after_ring.nodes,
                key,
                slot.joining_name,
                slot.replication,
            ) && (slot.completed_at matches Some(at) ==> slot.forwarding_grace > 0 && now < at
                + slot.forwarding_grace)
            &&& node.join_target(key, now) matches Some(target) ==> target.addr
                == slot.joining_addr && target.token == slot.joining_token && target.channel
                == ChannelView::Joiner(slot.after_ring.id)
        },
{
}

/// While a node leaves, a write for a key goes to a node that comes to own the
/// key and did not own it, with that node's own address and token. It goes
/// nowhere for a key that the node does not own, nor when the node stays.
pub proof fn law_leaving_node_passes_its_keys_on(node: NodeView, key: KeyView)
    ensures
        node.leaving is None ==> node.leave_target(key) is None,
        node.leaving matches Some(leave) ==> {
            &&& !owns(leave.before, key, node.name, leave.replication) ==> node.leave_target(
                key,
            ) is None
            &&& node.leave_target(key) matches Some(target) ==> exists|heir: Seq<char>|
                #![trigger owns(leave.after, key, heir, leave.replication)]
                owns(leave.after, key, heir, leave.replication) && !owns(
                    leave.before,
                    key,
                    heir,
                    leave.replication,
                ) && leave.addresses.contains_key(heir) && leave.tokens.contains_key(heir)
                    && target.addr == leave.addresses[heir] && target.token == leave.tokens[heir]
                    && target.channel == ChannelView::Entrant(leave.addresses[heir])
        },
{
    if let Some(leave) = node.leaving {
        if let Some(target) = node.leave_target(key) {
            law_destination_is_a_new_owner(leave, key, node.name);
        }
    }
}

/// Clearing what is over from a slot changes nothing else of a node, and nothing
/// of how it routes.
pub proof fn law_sweeping_keeps_the_routing(node: NodeView, key: KeyView, now: u128, later: u128)
    requires
        now <= later,
    ensures
        node.swept(now).name == node.name,
        node.swept(now).token == node.token,
        node.swept(now).known == node.known,
        node.swept(now).leaving == node.leaving,
        node.swept(now).slot is Some ==> node.swept(now).slot == node.slot,
        node.swept(now).turns_away(key, later) == node.turns_away(key, later),
        node.swept(now).join_target(key, later) == node.join_target(key, later),
        node.swept(now).leave_target(key) == node.leave_target(key),
{
}

/// Giving up a handoff touches that handoff only: another one is left alone; of
/// one that still transfers just the wish to stop is noted; one that is done
/// frees its slot. The node stays who it is in any case.
pub proof fn law_abandoning_touches_only_its_handoff(node: NodeView, joining_name: Seq<char>)
    ensures
        ({
            let after = abandoned(node, joining_name);
            &&& after.name == node.name && after.token == node.token && after.leaving
                == node.leaving
            &&& node.slot is None ==> after == node
            &&& node.slot matches Some(slot) ==> {
                &&& slot.joining_name != joining_name ==> after == node
                &&& slot.joining_name == joining_name && slot.completed_at is None ==> after.known
                    == node.known && (after.slot matches Some(left) && left.abort_requested
                    && left.joining_name == slot.joining_name && left.joining_addr
                    == slot.joining_addr && left.joining_token == slot.joining_token
                    && left.after_ring == slot.after_ring && left.replication == slot.replication
                    && left.completed_at is None && left.acked_entries == slot.acked_entries
                    && left.marked_keys == slot.marked_keys && left.confirmed == slot.confirmed
                    && left.pending_clears == slot.pending_clears)
                &&& slot.joining_name == joining_name && slot.completed_at is Some ==> after.slot
                    is None && ((node.known matches Some(known) && known.ring.id
                    != slot.after_ring.id) ==> after.known == node.known)
            }
        }),
{
}

/// A node outside a cluster is ready at once; one in a cluster is when it knows
/// who is in it, and is no more once it leaves.
pub proof fn law_readiness(node: NodeView)
    ensures
        serves_clients(None),
        node.known is None ==> !serves_clients(Some(node)),
        node.leaving is Some ==> !serves_clients(Some(node)),
        node.known is Some && node.leaving is None ==> serves_clients(Some(node)),
{
}

/// The sweep never removes a marked copy while the join that it was marked for
/// may still come to nothing, and removes nothing while entries are transferred;
/// once there is no handoff, or its join is confirmed, it removes marked copies.
pub proof fn law_marked_copies_outlive_an_undecided_join(
    slot: Option<ActiveMigration>,
    action: SweepAction,
)
    requires
        call_ensures(sweep_action, (&slot,), action),
    ensures
        action is Pause <==> (slot matches Some(active) && active.completed_at is None),
        action == (SweepAction::Sweep { marked: true }) <==> (slot matches Some(active)
            ==> active.completed_at is Some && active.confirmed),
{
}

/// A sweep goes on at once just when it removed all that it might have.
pub proof fn law_sweep_goes_on_while_it_is_full(removed: usize, budget: usize, again: bool)
    requires
        call_ensures(sweeps_again, (Some(removed), budget), again),
    ensures
        again <==> removed >= budget,
{
}

/// A node is viewed whole: who it is, its slot, what it knows, and whether it
/// leaves.
pub proof fn law_node_is_viewed_whole(node: NodeContext)
    ensures
        node_view(None) is None,
        node_view(Some(node)) == Some(node@),
        node@.name == node.name@,
        node@.token == node.token@,
        node@.slot == slot_view(node.active_migration),
        node@.known == membership_view(node.known_ring),
        node.leaving is None <==> node@.leaving is None,
        node.leaving matches Some(leave) ==> node@.leaving == Some(leave@),
{
}

/// A clear is never lost to a handoff: while it transfers, the clear is put
/// behind those that wait; once it is done and its window is open, the clear is
/// forwarded to the joining node; and only where neither holds it stays here.
pub proof fn law_clear_is_queued_or_forwarded(
    node: &mut NodeContext,
    slot: SlotView,
    scope: ClearScope,
    now: u128,
    route: ClearRoute,
)
    requires
        call_ensures(route_clear, (node, &scope, now), route),
        old(node)@.slot == Some(slot),
    ensures
        route is Queued <==> slot.completed_at is None,
        route is Queued ==> (final(node)@.slot matches Some(after) && after.pending_clears
            == slot.pending_clears.push(scope@)),
        route is Forward <==> (slot.completed_at matches Some(at) && slot.forwarding_grace > 0 && now
            < at + slot.forwarding_grace),
        route matches ClearRoute::Forward(target) ==> target@.addr == slot.joining_addr
            && target@.token == slot.joining_token,
        final(node)@.name == old(node)@.name,
        final(node)@.known == old(node)@.known,
        final(node)@.leaving == old(node)@.leaving,
{
}

} // verus!
