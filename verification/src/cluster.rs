//! What a node knows of the cluster: who is in it, and how to reach them.
use vstd::prelude::*;

use crate::ring::HashRing;
use crate::text::same_text;
use crate::text::text_views;

verus! {

/// A ring with a number that tells it apart from every other ring the node has
/// built, also from one with the same nodes.
#[derive(Debug)]
pub struct SharedRing {
    pub id: u64,
    pub ring: HashRing,
}

#[verifier::ext_equal]
pub struct SharedRingView {
    pub id: u64,
    pub nodes: Seq<Seq<char>>,
}

impl View for SharedRing {
    type V = SharedRingView;

    open spec fn view(&self) -> SharedRingView {
        SharedRingView { id: self.id, nodes: self.ring@ }
    }
}

impl SharedRing {
    pub fn share(&self) -> (copy: SharedRing)
        ensures
            copy@ == self@,
    {
        SharedRing { id: self.id, ring: self.ring.clone() }
    }
}

/// The nodes of the cluster and how many of them own each key.
#[derive(Debug)]
pub struct Membership {
    pub ring: SharedRing,
    pub replication: usize,
}

#[verifier::ext_equal]
pub struct MembershipView {
    pub ring: SharedRingView,
    pub replication: nat,
}

impl View for Membership {
    type V = MembershipView;

    open spec fn view(&self) -> MembershipView {
        MembershipView { ring: self.ring@, replication: self.replication as nat }
    }
}

impl Membership {
    pub fn share(&self) -> (copy: Membership)
        ensures
            copy@ == self@,
    {
        Membership { ring: self.ring.share(), replication: self.replication }
    }
}

/// The view of what may not be known yet.
pub open spec fn membership_view(membership: Option<Membership>) -> Option<MembershipView> {
    match membership {
        Some(known) => Some(known@),
        None => None,
    }
}

/// A copy of what may not be known yet.
pub fn share_membership(membership: &Option<Membership>) -> (copy: Option<Membership>)
    ensures
        membership_view(copy) == membership_view(*membership),
{
    match membership {
        Some(known) => Some(known.share()),
        None => None,
    }
}

/// Whether `after` lacks a node that `before` has.
pub open spec fn dropped_member(before: Seq<Seq<char>>, after: Seq<Seq<char>>) -> bool {
    exists|node: Seq<char>| #[trigger] before.contains(node) && !after.contains(node)
}

/// Whether `after` lacks a node that `before` has.
pub fn ring_dropped_a_member(before: &HashRing, after: &HashRing) -> (dropped: bool)
    ensures
        dropped == dropped_member(before@, after@),
{
    let nodes = before.nodes();
    let mut index: usize = 0;
    while index < nodes.len()
        invariant
            index <= nodes.len(),
            text_views(nodes@) == before@,
            forall|i: int| 0 <= i < index ==> after@.contains(#[trigger] before@[i]),
        decreases nodes.len() - index,
    {
        assert(before@[index as int] == nodes@[index as int]@);
        if !after.has(nodes[index].as_str()) {
            assert(before@.contains(nodes@[index as int]@));
            return true;
        }
        index += 1;
    }
    assert(!dropped_member(before@, after@)) by {
        assert forall|node: Seq<char>| #[trigger] before@.contains(node) implies after@.contains(
            node,
        ) by {
            let i = before@.index_of(node);
            assert(before@[i] == node);
        }
    }
    false
}

/// A change of the membership that was applied.
#[derive(Debug)]
pub struct RingChange {
    pub before: Option<Membership>,
    pub after: Membership,
}

impl RingChange {
    /// Whether the change dropped a node. The first membership drops none.
    pub fn dropped_a_member(&self) -> (dropped: bool)
        ensures
            dropped == match self.before {
                Some(before) => dropped_member(before@.ring.nodes, self.after@.ring.nodes),
                None => false,
            },
    {
        match &self.before {
            Some(before) => ring_dropped_a_member(&before.ring.ring, &self.after.ring.ring),
            None => false,
        }
    }
}

/// What is known of each of some nodes: its address, or its token.
#[derive(Debug)]
pub struct Directory {
    entries: Vec<(String, String)>,
}

/// The last value given to each name.
pub open spec fn directory_map(entries: Seq<(String, String)>) -> Map<Seq<char>, Seq<char>>
    decreases entries.len(),
{
    if entries.len() == 0 {
        Map::empty()
    } else {
        directory_map(entries.drop_last()).insert(entries.last().0@, entries.last().1@)
    }
}

impl View for Directory {
    type V = Map<Seq<char>, Seq<char>>;

    closed spec fn view(&self) -> Map<Seq<char>, Seq<char>> {
        directory_map(self.entries@)
    }
}

impl Directory {
    pub fn new() -> (directory: Directory)
        ensures
            directory@ == Map::<Seq<char>, Seq<char>>::empty(),
    {
        Directory { entries: Vec::new() }
    }

    pub fn insert(&mut self, name: String, value: String)
        ensures
            final(self)@ == old(self)@.insert(name@, value@),
    {
        self.entries.push((name, value));
        assert(self.entries@.drop_last() =~= old(self).entries@);
    }

    pub fn get<'a>(&'a self, name: &str) -> (value: Option<&'a str>)
        ensures
            value is Some <==> self@.contains_key(name@),
            value matches Some(found) ==> found@ == self@[name@],
    {
        let mut index: usize = self.entries.len();
        assert(self.entries@.take(self.entries@.len() as int) =~= self.entries@);
        while index > 0
            invariant
                index <= self.entries.len(),
                self@ == directory_map(self.entries@),
                self@.contains_key(name@) <==> directory_map(
                    self.entries@.take(index as int),
                ).contains_key(name@),
                self@.contains_key(name@) ==> self@[name@] == directory_map(
                    self.entries@.take(index as int),
                )[name@],
            decreases index,
        {
            index -= 1;
            assert(self.entries@.take(index + 1).drop_last() =~= self.entries@.take(index as int));
            assert(self.entries@.take(index + 1).last() == self.entries@[index as int]);
            if same_text(self.entries[index].0.as_str(), name) {
                return Some(self.entries[index].1.as_str());
            }
        }
        None
    }
}

/// A member as discovery lists it to a node.
#[derive(Clone, Debug, PartialEq, Eq)]
pub struct RosterEntry {
    pub name: String,
    pub addr: String,
    pub token: String,
}

#[verifier::ext_equal]
pub struct RosterEntryView {
    pub name: Seq<char>,
    pub addr: Seq<char>,
    pub token: Seq<char>,
}

impl View for RosterEntry {
    type V = RosterEntryView;

    open spec fn view(&self) -> RosterEntryView {
        RosterEntryView { name: self.name@, addr: self.addr@, token: self.token@ }
    }
}

/// The views of a roster.
pub open spec fn entry_views(members: Seq<RosterEntry>) -> Seq<RosterEntryView> {
    members.map_values(|member: RosterEntry| member@)
}

/// The names of a roster, in order.
pub open spec fn entry_names(members: Seq<RosterEntryView>) -> Seq<Seq<char>> {
    members.map_values(|member: RosterEntryView| member.name)
}

/// The address of each name; the last one listed counts.
pub open spec fn entry_addresses(members: Seq<RosterEntryView>) -> Map<Seq<char>, Seq<char>>
    decreases members.len(),
{
    if members.len() == 0 {
        Map::empty()
    } else {
        entry_addresses(members.drop_last()).insert(members.last().name, members.last().addr)
    }
}

/// The token of each name; the last one listed counts.
pub open spec fn entry_tokens(members: Seq<RosterEntryView>) -> Map<Seq<char>, Seq<char>>
    decreases members.len(),
{
    if members.len() == 0 {
        Map::empty()
    } else {
        entry_tokens(members.drop_last()).insert(members.last().name, members.last().token)
    }
}

/// The addresses and the tokens of a roster.
pub fn roster_directories(members: &Vec<RosterEntry>) -> (directories: (Directory, Directory))
    ensures
        directories.0@ == entry_addresses(entry_views(members@)),
        directories.1@ == entry_tokens(entry_views(members@)),
{
    let ghost views = entry_views(members@);
    let mut addresses = Directory::new();
    let mut tokens = Directory::new();
    let mut index: usize = 0;
    while index < members.len()
        invariant
            index <= members.len(),
            views == entry_views(members@),
            addresses@ == entry_addresses(views.take(index as int)),
            tokens@ == entry_tokens(views.take(index as int)),
        decreases members.len() - index,
    {
        assert(views.take(index + 1).drop_last() =~= views.take(index as int));
        assert(views.take(index + 1).last() == members@[index as int]@);
        addresses.insert(members[index].name.clone(), members[index].addr.clone());
        tokens.insert(members[index].name.clone(), members[index].token.clone());
        index += 1;
    }
    assert(views.take(members@.len() as int) =~= views);
    (addresses, tokens)
}

/// The names of a roster, in order.
pub fn roster_member_names(members: &Vec<RosterEntry>) -> (names: Vec<String>)
    ensures
        text_views(names@) == entry_names(entry_views(members@)),
{
    let mut names: Vec<String> = Vec::new();
    let mut index: usize = 0;
    while index < members.len()
        invariant
            index <= members.len(),
            names.len() == index,
            forall|i: int| 0 <= i < index ==> (#[trigger] names@[i])@ == members@[i].name@,
        decreases members.len() - index,
    {
        names.push(members[index].name.clone());
        index += 1;
    }
    assert(text_views(names@) =~= entry_names(entry_views(members@)));
    names
}

/// Of each name that a roster lists, the address and the token are those of its
/// last listing.
pub proof fn law_last_listing_counts(members: Seq<RosterEntryView>, index: int)
    requires
        0 <= index < members.len(),
        forall|i: int|
            index < i < members.len() ==> (#[trigger] members[i]).name != members[index].name,
    ensures
        entry_addresses(members).contains_key(members[index].name),
        entry_addresses(members)[members[index].name] == members[index].addr,
        entry_tokens(members).contains_key(members[index].name),
        entry_tokens(members)[members[index].name] == members[index].token,
    decreases members.len(),
{
    if index < members.len() - 1 {
        let rest = members.drop_last();
        assert forall|i: int| index < i < rest.len() implies (#[trigger] rest[i]).name
            != rest[index].name by {
            assert(members[i].name != members[index].name);
        }
        law_last_listing_counts(rest, index);
        assert(members[members.len() - 1].name != members[index].name);
    }
}

/// The names that a roster lists have an address and a token, and no others do.
pub proof fn law_listed_names_can_be_reached(members: Seq<RosterEntryView>, name: Seq<char>)
    ensures
        entry_addresses(members).contains_key(name) <==> entry_names(members).contains(name),
        entry_tokens(members).contains_key(name) <==> entry_names(members).contains(name),
    decreases members.len(),
{
    let names = entry_names(members);
    if members.len() > 0 {
        let rest = members.drop_last();
        let others = entry_names(rest);
        law_listed_names_can_be_reached(rest, name);
        assert(names =~= others.push(members.last().name));
        assert(names[names.len() - 1] == members.last().name);
        if others.contains(name) {
            assert(names[others.index_of(name)] == name);
        }
        if names.contains(name) {
            let i = names.index_of(name);
            if i < others.len() {
                assert(others[i] == name);
            }
        }
    }
}

/// A change drops a member just when some node of before is not among those of
/// after; a change that only adds nodes, or that only lists them otherwise,
/// drops none.
pub proof fn law_growth_drops_nobody(before: Seq<Seq<char>>, after: Seq<Seq<char>>)
    ensures
        (forall|i: int| 0 <= i < before.len() ==> after.contains(#[trigger] before[i]))
            <==> !dropped_member(before, after),
{
    if !dropped_member(before, after) {
        assert forall|i: int| 0 <= i < before.len() implies after.contains(
            #[trigger] before[i],
        ) by {
            assert(before.contains(before[i]));
        }
    }
    if dropped_member(before, after) {
        let node = choose|node: Seq<char>| #[trigger]
            before.contains(node) && !after.contains(node);
        assert(before[before.index_of(node)] == node);
    }
}

/// A roster is viewed member by member, in order: the name, the address and the
/// token of each.
pub proof fn law_roster_is_viewed_in_order(members: Seq<RosterEntry>, index: int)
    requires
        0 <= index < members.len(),
    ensures
        entry_views(members).len() == members.len(),
        entry_views(members)[index].name == members[index].name@,
        entry_views(members)[index].addr == members[index].addr@,
        entry_views(members)[index].token == members[index].token@,
        entry_names(entry_views(members))[index] == members[index].name@,
        entry_names(entry_views(members)).len() == members.len(),
{
}

/// What a node knows of the cluster is viewed whole: the number and the nodes of
/// the ring, and the replication factor.
pub proof fn law_membership_is_viewed_whole(membership: Membership)
    ensures
        membership@.ring.id == membership.ring.id,
        membership@.ring.nodes == membership.ring.ring@,
        membership@.replication == membership.replication,
        membership_view(Some(membership)) == Some(membership@),
        membership_view(None) is None,
{
}

} // verus!
