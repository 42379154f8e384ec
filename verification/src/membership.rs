//! Taking over what discovery says of the cluster.
use vstd::prelude::*;

use crate::cluster::membership_view;
use crate::cluster::Membership;
use crate::cluster::MembershipView;
use crate::cluster::RingChange;
use crate::cluster::SharedRing;
use crate::migration::slot_view;
use crate::migration::ActiveMigration;
use crate::migration::SlotView;
use crate::ring::lemma_without_repeats;
use crate::ring::HashRing;
use crate::text::contains_text;
use crate::text::lemma_sorted_has_no_duplicates;
use crate::text::same_members;
use crate::text::sorted_texts;
use crate::text::strictly_sorted;
use crate::text::text_views;

verus! {

/// A handoff once discovery has sent a roster: listing the joining node of a
/// handoff that is done confirms its join.
pub open spec fn with_roster(slot: SlotView, roster: Seq<Seq<char>>) -> SlotView {
    SlotView {
        confirmed: slot.confirmed || (roster.contains(slot.joining_name)
            && slot.completed_at is Some),
        ..slot
    }
}

/// The slot once discovery has sent a roster. A joining node that was confirmed
/// and is not listed any more was evicted: nothing is left to forward to it.
pub open spec fn slot_after_roster(
    slot: Option<SlotView>,
    roster: Seq<Seq<char>>,
) -> Option<SlotView> {
    match slot {
        Some(active) => if active.confirmed && !roster.contains(active.joining_name) {
            None
        } else {
            Some(with_roster(active, roster))
        },
        None => None,
    }
}

/// Whether a roster is held back, since it does not list a node whose join is
/// still under way.
pub open spec fn join_pending(slot: Option<SlotView>, roster: Seq<Seq<char>>, now: u128) -> bool {
    match slot {
        Some(active) => active.forwards(now) && !roster.contains(active.joining_name)
            && !active.confirmed,
        None => false,
    }
}

/// Whether a roster says what the node believes already.
pub open spec fn roster_is_known(
    known: Option<MembershipView>,
    roster: Seq<Seq<char>>,
    replication: nat,
) -> bool {
    match known {
        Some(current) => current.replication == replication && same_members(
            current.ring.nodes,
            roster,
        ),
        None => false,
    }
}

/// Whether every text of `some` is in `all`.
fn all_listed(some: &Vec<String>, all: &Vec<String>) -> (listed: bool)
    ensures
        listed == forall|text: Seq<char>| #[trigger]
            text_views(some@).contains(text) ==> text_views(all@).contains(text),
{
    let mut index: usize = 0;
    while index < some.len()
        invariant
            index <= some.len(),
            forall|i: int|
                0 <= i < index ==> text_views(all@).contains(#[trigger] text_views(some@)[i]),
        decreases some.len() - index,
    {
        assert(text_views(some@)[index as int] == some@[index as int]@);
        if !contains_text(all, some[index].as_str()) {
            assert(text_views(some@).contains(some@[index as int]@));
            return false;
        }
        index += 1;
    }
    assert forall|text: Seq<char>| #[trigger]
        text_views(some@).contains(text) implies text_views(all@).contains(text) by {
        let i = text_views(some@).index_of(text);
        assert(text_views(some@)[i] == text);
    }
    true
}

/// Takes over the members and the replication factor of a roster, as ring
/// number `ring_id`, unless a join is under way that the roster does not show
/// yet. Tells what changed, if anything did.
pub fn adopt_membership(
    known_ring: &mut Option<Membership>,
    active_migration: &mut Option<ActiveMigration>,
    members: &Vec<String>,
    replication: usize,
    ring_id: u64,
    now: u128,
) -> (change: Option<RingChange>)
    ensures
        ({
            let roster = text_views(members@);
            let slot = slot_view(*old(active_migration));
            let known = membership_view(*old(known_ring));
            &&& slot_view(*final(active_migration)) == slot_after_roster(slot, roster)
            &&& change is Some <==> !join_pending(slot, roster, now) && !roster_is_known(
                known,
                roster,
                replication as nat,
            )
            &&& change is None ==> *final(known_ring) == *old(known_ring)
            &&& change matches Some(applied) ==> {
                &&& membership_view(applied.before) == known
                &&& applied.after@.ring.id == ring_id
                &&& applied.after@.replication == replication
                &&& same_members(applied.after@.ring.nodes, roster)
                &&& strictly_sorted(applied.after@.ring.nodes)
                &&& membership_view(*final(known_ring)) == Some(applied.after@)
            }
        }),
{
    let mut pending = false;
    let mut evicted = false;
    match active_migration.as_mut() {
        Some(active) => {
            let listed = contains_text(members, active.joining_name.as_str());
            if listed && active.completed_at.is_some() && !active.confirmed {
                active.confirmed = true;
            }
            pending = active.forwarding_open(now) && !listed && !active.confirmed;
            evicted = active.confirmed && !listed;
        },
        None => {},
    }
    if evicted {
        *active_migration = None;
    }
    if pending {
        return None;
    }
    let sorted = sorted_texts(members);
    let ghost names = text_views(sorted@);
    let ghost roster = text_views(members@);
    let unchanged = match known_ring.as_ref() {
        Some(current) => current.replication == replication && all_listed(
            current.ring.ring.nodes(),
            &sorted,
        ) && all_listed(&sorted, current.ring.ring.nodes()),
        None => false,
    };
    let ghost known = membership_view(*known_ring);
    proof {
        match known {
            Some(current) => {
                if same_members(current.ring.nodes, roster) {
                    assert forall|text: Seq<char>| #[trigger]
                        current.ring.nodes.contains(text) implies names.contains(text) by {
                        assert(roster.contains(text));
                    }
                    assert forall|text: Seq<char>| #[trigger] names.contains(text) implies
                        current.ring.nodes.contains(text) by {
                        assert(roster.contains(text));
                    }
                }
                if unchanged {
                    assert forall|text: Seq<char>| #[trigger]
                        current.ring.nodes.contains(text) <==> roster.contains(text) by {
                        assert(names.contains(text) <==> roster.contains(text));
                    }
                }
            },
            None => {},
        }
    }
    if unchanged {
        return None;
    }
    proof {
        lemma_sorted_has_no_duplicates(names);
        lemma_without_repeats(names);
    }
    let after = Membership {
        ring: SharedRing { id: ring_id, ring: HashRing::new(sorted) },
        replication,
    };
    let before = known_ring.take();
    *known_ring = Some(after.share());
    Some(RingChange { before, after })
}

/// While a join is under way that a roster does not show, the node's belief is
/// left alone; as soon as the roster lists the joining node it is followed.
pub proof fn law_roster_waits_only_for_a_pending_join(
    slot: SlotView,
    roster: Seq<Seq<char>>,
    now: u128,
)
    ensures
        roster.contains(slot.joining_name) ==> !join_pending(Some(slot), roster, now),
        slot.confirmed ==> !join_pending(Some(slot), roster, now),
        !slot.forwards(now) ==> !join_pending(Some(slot), roster, now),
{
}

/// The eviction of a confirmed joining node closes its forwarding window at
/// once; before the join is confirmed no roster closes it.
pub proof fn law_eviction_closes_the_window(slot: SlotView, roster: Seq<Seq<char>>)
    requires
        !roster.contains(slot.joining_name),
    ensures
        slot_after_roster(Some(slot), roster) is None <==> slot.confirmed,
        !slot.confirmed ==> slot_after_roster(Some(slot), roster) == Some(slot),
{
}

/// A roster confirms the join of a handoff just when it lists the joining node
/// and this node's share is done; what was confirmed stays so. Of the handoff
/// nothing else changes.
pub proof fn law_roster_confirms_a_finished_join(slot: SlotView, roster: Seq<Seq<char>>)
    requires
        slot_after_roster(Some(slot), roster) is Some,
    ensures
        slot_after_roster(Some(slot), roster) matches Some(after) && (after.confirmed
            <==> slot.confirmed || (slot.completed_at is Some && roster.contains(
            slot.joining_name,
        ))) && after.joining_name == slot.joining_name && after.joining_addr == slot.joining_addr
            && after.joining_token == slot.joining_token && after.after_ring == slot.after_ring
            && after.replication == slot.replication && after.completed_at == slot.completed_at
            && after.forwarding_grace == slot.forwarding_grace && after.acked_entries
            == slot.acked_entries && after.abort_requested == slot.abort_requested
            && after.marked_keys == slot.marked_keys && after.pre_completion_ring
            == slot.pre_completion_ring && after.pending_clears == slot.pending_clears,
{
}

/// A roster that lists the joining node never frees its slot; and a free slot
/// stays free.
pub proof fn law_listing_keeps_the_slot(slot: SlotView, roster: Seq<Seq<char>>)
    ensures
        slot_after_roster(None, roster) is None,
        roster.contains(slot.joining_name) ==> slot_after_roster(Some(slot), roster) is Some,
{
}

/// A roster is held back just while a handoff that is not confirmed forwards to
/// a node that the roster does not list: never without a handoff, and never
/// once the grace has run out.
pub proof fn law_roster_is_held_back_for_a_join_under_way(
    slot: SlotView,
    roster: Seq<Seq<char>>,
    now: u128,
)
    ensures
        !join_pending(None, roster, now),
        join_pending(Some(slot), roster, now) <==> !slot.confirmed && !roster.contains(
            slot.joining_name,
        ) && (slot.completed_at matches Some(at) ==> slot.forwarding_grace > 0 && now < at
            + slot.forwarding_grace),
{
}

/// A roster is known already just when it has the believed replication factor
/// and lists the believed nodes, in whatever order and however often; before
/// anything is believed none is.
pub proof fn law_roster_is_compared_by_its_members(
    known: MembershipView,
    roster: Seq<Seq<char>>,
    replication: nat,
)
    ensures
        !roster_is_known(None, roster, replication),
        roster_is_known(Some(known), roster, replication) <==> known.replication == replication && (
        forall|node: Seq<char>| #[trigger]
            known.ring.nodes.contains(node) ==> roster.contains(node)) && (forall|
            node: Seq<char>,
        | #[trigger]
            roster.contains(node) ==> known.ring.nodes.contains(node)),
{
}

/// A roster is taken over just if it is news and nothing holds it back; what is
/// then believed is just the members it lists, under its replication factor and
/// the new number, and the change tells what was believed before. Else the
/// belief stays.
pub proof fn law_roster_is_taken_over_whole(
    known_ring: &mut Option<Membership>,
    active_migration: &mut Option<ActiveMigration>,
    members: Vec<String>,
    replication: usize,
    ring_id: u64,
    now: u128,
    change: Option<RingChange>,
)
    requires
        call_ensures(
            adopt_membership,
            (known_ring, active_migration, &members, replication, ring_id, now),
            change,
        ),
    ensures
        change is None ==> *final(known_ring) == *old(known_ring),
        change is Some ==> (membership_view(*final(known_ring)) matches Some(known)
            && known.ring.id == ring_id && known.replication == replication && (forall|
            node: Seq<char>,
        | #[trigger]
            known.ring.nodes.contains(node) <==> text_views(members@).contains(node))),
        change matches Some(applied) ==> membership_view(applied.before) == membership_view(
            *old(known_ring),
        ) && Some(applied.after@) == membership_view(*final(known_ring)),
        *old(active_migration) is None && *old(known_ring) is None ==> change is Some,
{
}

} // verus!
