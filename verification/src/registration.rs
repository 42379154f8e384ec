//! A node's registration with one discovery server: joining or announcing, and
//! the heartbeats that follow.
use vstd::prelude::*;

use crate::cluster::dropped_member;
use crate::cluster::membership_view;
use crate::cluster::RingChange;
use crate::forward::AuthPeer;
use crate::membership::adopt_membership;
use crate::membership::join_pending;
use crate::membership::roster_is_known;
use crate::membership::slot_after_roster;
use crate::message::announce_frame;
use crate::message::announce_message;
use crate::message::heartbeat_frame;
use crate::message::heartbeat_message;
use crate::message::join_frame;
use crate::message::join_message;
use crate::message::law_registration_frames_read_back;
use crate::node::NodeContext;
use crate::node::NodeView;
use crate::text::same_members;
use crate::text::strictly_sorted;
use crate::text::text_views;

verus! {

/// What a discovery server is to the node. Only the primary is asked to let the
/// node join; the others are told once it has.
#[derive(Clone, Copy, Debug, PartialEq, Eq, Structural)]
pub enum DiscoveryRole {
    Primary,
    Standby,
}

/// The role of the server that is configured at `index`.
pub fn discovery_role(index: usize) -> (role: DiscoveryRole)
    ensures
        role == if index == 0 {
            DiscoveryRole::Primary
        } else {
            DiscoveryRole::Standby
        },
{
    if index == 0 {
        DiscoveryRole::Primary
    } else {
        DiscoveryRole::Standby
    }
}

/// How far a registration is.
#[derive(Clone, Copy, Debug, PartialEq, Eq, Structural)]
pub enum Phase {
    /// The primary has not promoted the node yet.
    Waiting,
    Dialing,
    Authenticating,
    Registering,
    /// The registration is sent, and the answer is awaited.
    Promoting,
    Beating,
    /// A heartbeat is sent, and its acknowledgement is awaited.
    Acking,
    /// Until the next heartbeat.
    Pausing,
    /// Until the next attempt to connect.
    Resting,
    Stopped,
}

/// What the outside has to do next, and answers with an event.
#[derive(Clone, Copy, Debug, PartialEq, Eq, Structural)]
pub enum RegistrationAction {
    AwaitPromotion,
    Connect,
    Authenticate,
    /// Sends the registration.
    Register,
    AwaitReply,
    /// Sends a heartbeat.
    Beat,
    AwaitAck,
    /// Waits for the heartbeat interval.
    Wait,
    Stop,
}

/// What happened outside.
#[derive(Clone, Copy, Debug)]
pub enum RegistrationEvent {
    Shutdown,
    /// The primary's word on the promotion may have changed.
    Woken,
    /// The registration with the primary is over; no promotion will come.
    PromoterGone,
    Connected,
    /// What was to be done failed, or took too long.
    Failed,
    /// What the server answered to the shared secret.
    AuthReply([u8; 3]),
    /// What was to be sent is sent.
    Sent,
    /// What the server answered to the registration.
    Reply([u8; 2]),
    /// The heartbeat was acknowledged.
    Acked,
    /// The interval is over.
    Waited,
}

/// What a server answered to the shared secret.
#[derive(Clone, Copy, Debug, PartialEq, Eq, Structural)]
pub enum AuthVerdict {
    Accepted,
    Rejected,
    /// Neither: most often the server expects an encrypted connection.
    Unexpected,
}

/// Reads what a discovery server answered to the shared secret. Only an
/// explicit refusal counts as one.
pub fn auth_verdict(ack: &[u8; 3]) -> (verdict: AuthVerdict)
    ensures
        verdict == if ack@ == seq![79u8, 100u8, 10u8] {
            AuthVerdict::Accepted
        } else if ack@ == seq![69u8, 100u8, 10u8] {
            AuthVerdict::Rejected
        } else {
            AuthVerdict::Unexpected
        },
{
    if AuthPeer::Discovery.accepted(ack) {
        return AuthVerdict::Accepted;
    }
    if ack[0] == 69 && ack[1] == 100 && ack[2] == 10 {
        assert(ack@ =~= seq![69u8, 100u8, 10u8]);
        return AuthVerdict::Rejected;
    }
    AuthVerdict::Unexpected
}

/// A registration with one discovery server.
#[derive(Clone, Copy, Debug, PartialEq, Eq, Structural)]
pub struct Registration {
    pub role: DiscoveryRole,
    pub phase: Phase,
    /// Whether the registration that is sent asks to join.
    pub joining: bool,
}

/// Whether the server confirms a registration.
pub open spec fn confirms(reply: Seq<u8>) -> bool {
    reply == seq![82u8, 10u8]
}

impl Registration {
    /// The same registration in another phase.
    pub open spec fn at(self, phase: Phase) -> Registration {
        Registration { phase, ..self }
    }

    /// The registration when it is about to be sent.
    pub open spec fn registering(self, promoted: bool) -> Registration {
        Registration {
            role: self.role,
            phase: Phase::Registering,
            joining: self.role == DiscoveryRole::Primary && !promoted,
        }
    }

    /// The registration after an event. What does not fit the phase counts as a
    /// failure.
    pub open spec fn after(
        self,
        event: RegistrationEvent,
        has_secret: bool,
        promoted: bool,
    ) -> Registration {
        match (self.phase, event) {
            (Phase::Stopped, _) => self,
            (_, RegistrationEvent::Shutdown) => self.at(Phase::Stopped),
            (Phase::Waiting, RegistrationEvent::PromoterGone) => self.at(Phase::Stopped),
            (Phase::Waiting, _) => if promoted {
                self.at(Phase::Dialing)
            } else {
                self
            },
            (Phase::Dialing, RegistrationEvent::Connected) => if has_secret {
                self.at(Phase::Authenticating)
            } else {
                self.registering(promoted)
            },
            (Phase::Authenticating, RegistrationEvent::AuthReply(ack)) => if ack@
                == AuthPeer::Discovery.ack() {
                self.registering(promoted)
            } else {
                self.at(Phase::Resting)
            },
            (Phase::Registering, RegistrationEvent::Sent) => self.at(Phase::Promoting),
            (Phase::Promoting, RegistrationEvent::Reply(reply)) => if confirms(reply@) {
                self.at(Phase::Beating)
            } else {
                self.at(Phase::Resting)
            },
            (Phase::Beating, RegistrationEvent::Sent) => self.at(Phase::Acking),
            (Phase::Acking, RegistrationEvent::Acked) => self.at(Phase::Pausing),
            (Phase::Pausing, RegistrationEvent::Waited) => self.at(Phase::Beating),
            (Phase::Resting, RegistrationEvent::Waited) => self.at(Phase::Dialing),
            _ => self.at(Phase::Resting),
        }
    }

    /// Whether an event brings the promotion of the node.
    pub open spec fn promotes(self, event: RegistrationEvent) -> bool {
        &&& self.role == DiscoveryRole::Primary
        &&& self.phase == Phase::Promoting
        &&& event matches RegistrationEvent::Reply(reply)
        &&& confirms(reply@)
    }

    /// What has to be done in each phase.
    pub open spec fn action(self) -> RegistrationAction {
        match self.phase {
            Phase::Waiting => RegistrationAction::AwaitPromotion,
            Phase::Dialing => RegistrationAction::Connect,
            Phase::Authenticating => RegistrationAction::Authenticate,
            Phase::Registering => RegistrationAction::Register,
            Phase::Promoting => RegistrationAction::AwaitReply,
            Phase::Beating => RegistrationAction::Beat,
            Phase::Acking => RegistrationAction::AwaitAck,
            Phase::Pausing => RegistrationAction::Wait,
            Phase::Resting => RegistrationAction::Wait,
            Phase::Stopped => RegistrationAction::Stop,
        }
    }

    /// A registration that begins. With a standby it waits for the promotion:
    /// announced before, the node would be listed without its data.
    pub fn new(role: DiscoveryRole, promoted: bool) -> (registration: Registration)
        ensures
            registration == (Registration {
                role,
                phase: if role == DiscoveryRole::Standby && !promoted {
                    Phase::Waiting
                } else {
                    Phase::Dialing
                },
                joining: false,
            }),
    {
        let phase = match role {
            DiscoveryRole::Standby => {
                if promoted {
                    Phase::Dialing
                } else {
                    Phase::Waiting
                }
            },
            DiscoveryRole::Primary => Phase::Dialing,
        };
        Registration { role, phase, joining: false }
    }

    /// What has to be done next.
    pub fn next(&self) -> (action: RegistrationAction)
        ensures
            action == self.action(),
    {
        match self.phase {
            Phase::Waiting => RegistrationAction::AwaitPromotion,
            Phase::Dialing => RegistrationAction::Connect,
            Phase::Authenticating => RegistrationAction::Authenticate,
            Phase::Registering => RegistrationAction::Register,
            Phase::Promoting => RegistrationAction::AwaitReply,
            Phase::Beating => RegistrationAction::Beat,
            Phase::Acking => RegistrationAction::AwaitAck,
            Phase::Pausing => RegistrationAction::Wait,
            Phase::Resting => RegistrationAction::Wait,
            Phase::Stopped => RegistrationAction::Stop,
        }
    }

    fn registers(&mut self, promoted: bool)
        ensures
            *final(self) == old(self).registering(promoted),
    {
        self.joining = match self.role {
            DiscoveryRole::Primary => !promoted,
            DiscoveryRole::Standby => false,
        };
        self.phase = Phase::Registering;
    }

    /// Takes in an event; `promoted` is shared by the registrations of the node
    /// and stays set once it is.
    pub fn step(&mut self, event: &RegistrationEvent, has_secret: bool, promoted: &mut bool)
        ensures
            *final(self) == old(self).after(*event, has_secret, *old(promoted)),
            *final(promoted) == (*old(promoted) || old(self).promotes(*event)),
    {
        match (self.phase, event) {
            (Phase::Stopped, _) => {},
            (_, RegistrationEvent::Shutdown) => {
                self.phase = Phase::Stopped;
            },
            (Phase::Waiting, RegistrationEvent::PromoterGone) => {
                self.phase = Phase::Stopped;
            },
            (Phase::Waiting, _) => {
                if *promoted {
                    self.phase = Phase::Dialing;
                }
            },
            (Phase::Dialing, RegistrationEvent::Connected) => {
                if has_secret {
                    self.phase = Phase::Authenticating;
                } else {
                    self.registers(*promoted);
                }
            },
            (Phase::Authenticating, RegistrationEvent::AuthReply(ack)) => {
                if AuthPeer::Discovery.accepted(ack) {
                    self.registers(*promoted);
                } else {
                    self.phase = Phase::Resting;
                }
            },
            (Phase::Registering, RegistrationEvent::Sent) => {
                self.phase = Phase::Promoting;
            },
            (Phase::Promoting, RegistrationEvent::Reply(reply)) => {
                if reply[0] == 82 && reply[1] == 10 {
                    assert(reply@ =~= seq![82u8, 10u8]);
                    self.phase = Phase::Beating;
                    match self.role {
                        DiscoveryRole::Primary => {
                            *promoted = true;
                        },
                        DiscoveryRole::Standby => {},
                    }
                } else {
                    self.phase = Phase::Resting;
                }
            },
            (Phase::Beating, RegistrationEvent::Sent) => {
                self.phase = Phase::Acking;
            },
            (Phase::Acking, RegistrationEvent::Acked) => {
                self.phase = Phase::Pausing;
            },
            (Phase::Pausing, RegistrationEvent::Waited) => {
                self.phase = Phase::Beating;
            },
            (Phase::Resting, RegistrationEvent::Waited) => {
                self.phase = Phase::Dialing;
            },
            _ => {
                self.phase = Phase::Resting;
            },
        }
    }

    /// The registration to send: the request to join, or the announcement of a
    /// node that has joined.
    pub fn message(&self, node: &NodeContext, port: u16) -> (message: Vec<u8>)
        ensures
            message@ == if self.joining {
                join_frame(node@.name, port, node@.token)
            } else {
                announce_frame(node@.name, port, node@.token)
            },
    {
        if self.joining {
            join_message(node.name.as_str(), port, node.token.as_str())
        } else {
            announce_message(node.name.as_str(), port, node.token.as_str())
        }
    }

    /// Whether a registration keeps to what its role allows: with a standby
    /// nothing is sent before the promotion, and only the primary is asked to
    /// let the node join.
    pub open spec fn keeps_role(self, promoted: bool) -> bool {
        self.role == DiscoveryRole::Standby ==> {
            &&& !self.joining
            &&& self.phase == Phase::Waiting || self.phase == Phase::Stopped || promoted
        }
    }
}

/// Every registration keeps to its role, whatever happens.
pub proof fn law_registration_keeps_its_role(
    registration: Registration,
    event: RegistrationEvent,
    has_secret: bool,
    promoted: bool,
)
    requires
        registration.keeps_role(promoted),
    ensures
        registration.after(event, has_secret, promoted).keeps_role(
            promoted || registration.promotes(event),
        ),
        registration.after(event, has_secret, promoted).role == registration.role,
{
}

/// A node that has been promoted never asks to join again: a registration that
/// is sent after that is an announcement.
pub proof fn law_promoted_node_only_announces(
    registration: Registration,
    event: RegistrationEvent,
    has_secret: bool,
)
    requires
        registration.phase != Phase::Registering,
        registration.after(event, has_secret, true).phase == Phase::Registering,
    ensures
        !registration.after(event, has_secret, true).joining,
{
}

/// A heartbeat is sent only on a registration that the server confirmed: after
/// the confirmation, or after the heartbeat before.
pub proof fn law_heartbeats_follow_a_confirmation(
    registration: Registration,
    event: RegistrationEvent,
    has_secret: bool,
    promoted: bool,
)
    requires
        registration.phase != Phase::Beating,
        registration.after(event, has_secret, promoted).phase == Phase::Beating,
    ensures
        registration.phase == Phase::Pausing || (registration.phase == Phase::Promoting && (
        event matches RegistrationEvent::Reply(reply) && confirms(reply@))),
{
}

/// A failure never ends a registration: the node waits and connects again.
pub proof fn law_failure_leads_to_a_new_attempt(
    registration: Registration,
    has_secret: bool,
    promoted: bool,
)
    requires
        registration.phase != Phase::Stopped,
        registration.phase != Phase::Waiting,
    ensures
        registration.after(RegistrationEvent::Failed, has_secret, promoted).phase == Phase::Resting,
        registration.after(RegistrationEvent::Failed, has_secret, promoted).after(
            RegistrationEvent::Waited,
            has_secret,
            promoted,
        ).action() == RegistrationAction::Connect,
{
}

/// A shutdown ends a registration in every phase, for good.
pub proof fn law_shutdown_ends_a_registration(
    registration: Registration,
    later: RegistrationEvent,
    has_secret: bool,
    promoted: bool,
)
    ensures
        registration.after(RegistrationEvent::Shutdown, has_secret, promoted).action()
            == RegistrationAction::Stop,
        registration.after(RegistrationEvent::Shutdown, has_secret, promoted).after(
            later,
            has_secret,
            promoted,
        ).action() == RegistrationAction::Stop,
{
}

impl NodeContext {
    /// The heartbeat to send: it reports the replication factor that the node
    /// knows of at the time.
    pub fn heartbeat(&self) -> (message: Vec<u8>)
        ensures
            message@ == heartbeat_frame(
                self@.name,
                match self.known_ring {
                    Some(membership) => Some(membership.replication),
                    None => None,
                },
                self@.token,
            ),
    {
        let replication: Option<usize> = match &self.known_ring {
            Some(membership) => Some(membership.replication),
            None => None,
        };
        heartbeat_message(self.name.as_str(), replication, self.token.as_str())
    }
}

/// Whether a roster changes what a node knows.
pub open spec fn roster_changes(
    node: NodeView,
    roster: Seq<Seq<char>>,
    replication: nat,
    now: u128,
) -> bool {
    !join_pending(node.slot, roster, now) && !roster_is_known(node.known, roster, replication)
}

/// Takes in the roster of an acknowledgement, as ring number `ring_id`. Only the
/// primary's is taken. Hands back a change that dropped a node: what the node
/// owned has to be copied again.
pub fn adopt_roster(
    role: DiscoveryRole,
    node: &mut NodeContext,
    roster: &Option<(Vec<String>, usize)>,
    ring_id: u64,
    now: u128,
) -> (change: Option<RingChange>)
    ensures
        match *roster {
            Some((members, replication)) => if role == DiscoveryRole::Primary {
                let names = text_views(members@);
                let before = old(node)@;
                let after = final(node)@;
                &&& after.name == before.name
                &&& after.token == before.token
                &&& after.leaving == before.leaving
                &&& after.slot == slot_after_roster(before.slot, names)
                &&& if roster_changes(before, names, replication as nat, now) {
                    &&& after.known matches Some(known)
                    &&& known.ring.id == ring_id
                    &&& known.replication == replication
                    &&& same_members(known.ring.nodes, names)
                    &&& strictly_sorted(known.ring.nodes)
                } else {
                    after.known == before.known
                }
                &&& change is Some <==> roster_changes(before, names, replication as nat, now)
                    && before.known is Some && dropped_member(before.known->0.ring.nodes, names)
                &&& change matches Some(applied) ==> membership_view(applied.before)
                    == before.known && Some(applied.after@) == after.known
            } else {
                change is None && final(node)@ == old(node)@
            },
            None => change is None && final(node)@ == old(node)@,
        },
{
    match role {
        DiscoveryRole::Standby => {
            return None;
        },
        DiscoveryRole::Primary => {},
    }
    match roster {
        None => None,
        Some((members, replication)) => {
            let change = adopt_membership(
                &mut node.known_ring,
                &mut node.active_migration,
                members,
                *replication,
                ring_id,
                now,
            );
            match change {
                None => None,
                Some(applied) => {
                    let dropped = applied.dropped_a_member();
                    proof {
                        if let Some(before) = membership_view(applied.before) {
                            lemma_same_dropped(
                                before.ring.nodes,
                                applied.after@.ring.nodes,
                                text_views(members@),
                            );
                        }
                    }
                    if dropped {
                        Some(applied)
                    } else {
                        None
                    }
                },
            }
        },
    }
}

proof fn lemma_same_dropped(before: Seq<Seq<char>>, a: Seq<Seq<char>>, b: Seq<Seq<char>>)
    requires
        same_members(a, b),
    ensures
        dropped_member(before, a) == dropped_member(before, b),
{
    if dropped_member(before, a) {
        let node = choose|node: Seq<char>| #[trigger] before.contains(node) && !a.contains(node);
        assert(!b.contains(node));
    }
    if dropped_member(before, b) {
        let node = choose|node: Seq<char>| #[trigger] before.contains(node) && !b.contains(node);
        assert(!a.contains(node));
    }
}

/// With a secret nothing is registered before the server has accepted it, by the
/// answer `Od`.
pub proof fn law_secret_is_accepted_first(
    registration: Registration,
    event: RegistrationEvent,
    promoted: bool,
)
    requires
        registration.phase != Phase::Registering,
        registration.after(event, true, promoted).phase == Phase::Registering,
    ensures
        registration.phase == Phase::Authenticating,
        event matches RegistrationEvent::AuthReply(ack) && ack@ == seq![79u8, 100u8, 10u8],
{
}

/// A server confirms a registration by the answer `R` alone, and only the
/// primary's confirmation promotes the node.
pub proof fn law_primary_promotes_by_its_confirmation(
    registration: Registration,
    reply: [u8; 2],
    has_secret: bool,
    promoted: bool,
)
    requires
        registration.phase == Phase::Promoting,
    ensures
        ({
            let event = RegistrationEvent::Reply(reply);
            let after = registration.after(event, has_secret, promoted);
            let confirmed = reply@ == seq![82u8, 10u8];
            &&& confirmed ==> after.action() == RegistrationAction::Beat
            &&& !confirmed ==> after.action() == RegistrationAction::Wait && after.phase
                == Phase::Resting
            &&& registration.promotes(event) <==> confirmed && registration.role
                == DiscoveryRole::Primary
        }),
{
}

/// Nothing but the reply to a registration promotes the node.
pub proof fn law_only_a_reply_promotes(registration: Registration, event: RegistrationEvent)
    requires
        registration.promotes(event),
    ensures
        registration.role == DiscoveryRole::Primary,
        registration.phase == Phase::Promoting,
        event matches RegistrationEvent::Reply(reply) && reply@ == seq![82u8, 10u8],
{
}

/// The primary is asked to let the node join until the node is promoted, and is
/// told that it has joined from then on; a standby is never asked.
pub proof fn law_only_the_primary_is_asked_to_join(
    registration: Registration,
    event: RegistrationEvent,
    has_secret: bool,
    promoted: bool,
)
    requires
        registration.phase != Phase::Registering,
        registration.after(event, has_secret, promoted).phase == Phase::Registering,
    ensures
        registration.after(event, has_secret, promoted).joining <==> registration.role
            == DiscoveryRole::Primary && !promoted,
{
}

/// With a server that answers as it should, a registration goes all the way to
/// the heartbeats, and on from each to the next.
pub proof fn law_registration_goes_through(
    registration: Registration,
    has_secret: bool,
    promoted: bool,
    ack: [u8; 3],
    reply: [u8; 2],
)
    requires
        registration.phase == Phase::Dialing,
        ack@ == seq![79u8, 100u8, 10u8],
        reply@ == seq![82u8, 10u8],
    ensures
        ({
            let dialed = registration.after(RegistrationEvent::Connected, has_secret, promoted);
            let known = if has_secret {
                dialed.after(RegistrationEvent::AuthReply(ack), has_secret, promoted)
            } else {
                dialed
            };
            let sent = known.after(RegistrationEvent::Sent, has_secret, promoted);
            let beating = sent.after(RegistrationEvent::Reply(reply), has_secret, promoted);
            let waiting = beating.after(RegistrationEvent::Sent, has_secret, promoted);
            let pausing = waiting.after(RegistrationEvent::Acked, has_secret, promoted);
            let again = pausing.after(RegistrationEvent::Waited, has_secret, promoted);
            &&& registration.action() == RegistrationAction::Connect
            &&& has_secret ==> dialed.action() == RegistrationAction::Authenticate
            &&& known.action() == RegistrationAction::Register
            &&& sent.action() == RegistrationAction::AwaitReply
            &&& sent.joining == known.joining
            &&& beating.action() == RegistrationAction::Beat
            &&& waiting.action() == RegistrationAction::AwaitAck
            &&& pausing.action() == RegistrationAction::Wait
            &&& again.action() == RegistrationAction::Beat
        }),
{
}

/// A standby waits for the promotion: it dials as soon as it hears of it, stays
/// as it is until then, and stops if none can come any more.
pub proof fn law_standby_waits_for_the_promotion(
    registration: Registration,
    event: RegistrationEvent,
    has_secret: bool,
    promoted: bool,
)
    requires
        registration.phase == Phase::Waiting,
        !(event is Shutdown),
    ensures
        registration.action() == RegistrationAction::AwaitPromotion,
        event is PromoterGone ==> registration.after(event, has_secret, promoted).action()
            == RegistrationAction::Stop,
        !(event is PromoterGone) && promoted ==> registration.after(
            event,
            has_secret,
            promoted,
        ).action() == RegistrationAction::Connect,
        !(event is PromoterGone) && !promoted ==> registration.after(event, has_secret, promoted)
            == registration,
{
}

/// A roster is taken over just when no join under way holds it back and it does
/// not say what the node believes already.
pub proof fn law_roster_is_taken_over_when_it_is_news(
    node: NodeView,
    roster: Seq<Seq<char>>,
    replication: nat,
    now: u128,
)
    ensures
        node.slot is None && node.known is None ==> roster_changes(node, roster, replication, now),
        node.slot is None ==> (node.known matches Some(known) ==> (roster_changes(
            node,
            roster,
            replication,
            now,
        ) <==> known.replication != replication || !(forall|name: Seq<char>| #[trigger]
            known.ring.nodes.contains(name) <==> roster.contains(name)))),
        (node.slot matches Some(slot) && !slot.confirmed && slot.completed_at is None
            && !roster.contains(slot.joining_name)) ==> !roster_changes(
            node,
            roster,
            replication,
            now,
        ),
{
}

/// Whatever does not fit the phase of a registration counts as a failure: the
/// node rests and connects again.
pub proof fn law_unfit_event_counts_as_a_failure(
    registration: Registration,
    event: RegistrationEvent,
    has_secret: bool,
    promoted: bool,
)
    requires
        !(event is Shutdown),
        match registration.phase {
            Phase::Waiting | Phase::Stopped => false,
            Phase::Dialing => !(event is Connected),
            Phase::Authenticating => !(event is AuthReply),
            Phase::Registering | Phase::Beating => !(event is Sent),
            Phase::Promoting => !(event is Reply),
            Phase::Acking => !(event is Acked),
            Phase::Pausing | Phase::Resting => !(event is Waited),
        },
    ensures
        registration.after(event, has_secret, promoted).phase == Phase::Resting,
        registration.after(event, has_secret, promoted).action() == RegistrationAction::Wait,
{
}

/// The first server that is configured is the primary, and the others stand by.
pub proof fn law_first_server_is_the_primary(index: usize, role: DiscoveryRole)
    requires
        call_ensures(discovery_role, (index,), role),
    ensures
        role is Primary <==> index == 0,
{
}

/// A server's answer to the secret is accepted only as `Od` and refused only as
/// `Ed`.
pub proof fn law_only_an_explicit_refusal_is_one(ack: [u8; 3], verdict: AuthVerdict)
    requires
        call_ensures(auth_verdict, (&ack,), verdict),
    ensures
        verdict is Accepted <==> ack@ == seq![79u8, 100u8, 10u8],
        verdict is Rejected <==> ack@ == seq![69u8, 100u8, 10u8],
{
    assert(seq![79u8, 100u8, 10u8][0] == 79 && seq![69u8, 100u8, 10u8][0] == 69);
}

/// A node that joins and one that announces itself give the same name, port and
/// token, and are told apart.
pub proof fn law_registration_tells_whether_it_joins(
    registration: Registration,
    other: Registration,
    node: NodeContext,
    port: u16,
    message: Vec<u8>,
    other_message: Vec<u8>,
)
    requires
        call_ensures(Registration::message, (&registration, &node, port), message),
        call_ensures(Registration::message, (&other, &node, port), other_message),
    ensures
        message@ == other_message@ <==> registration.joining == other.joining,
        registration.joining ==> message@ == join_frame(node.name@, port, node.token@),
        !registration.joining ==> message@ == announce_frame(node.name@, port, node.token@),
{
    law_registration_frames_read_back(
        node.name@,
        port,
        None,
        node.token@,
        node.name@,
        port,
        None,
        node.token@,
    );
}

/// Only the primary's roster is taken over: that of a standby, and an answer
/// without one, leave the node as it is. A change is handed back just if a
/// member that the node knew of is gone.
pub proof fn law_only_the_primarys_roster_counts(
    role: DiscoveryRole,
    node: &mut NodeContext,
    roster: Option<(Vec<String>, usize)>,
    ring_id: u64,
    now: u128,
    change: Option<RingChange>,
)
    requires
        call_ensures(adopt_roster, (role, node, &roster, ring_id, now), change),
    ensures
        role is Standby || roster is None ==> final(node)@ == old(node)@ && change is None,
        final(node)@.name == old(node)@.name,
        final(node)@.token == old(node)@.token,
        final(node)@.leaving == old(node)@.leaving,
        old(node)@.known is None ==> change is None,
        change is Some ==> (final(node)@.known matches Some(after) && old(node)@.known matches Some(
            before,
        ) && exists|name: Seq<char>| #[trigger]
            before.ring.nodes.contains(name) && !after.ring.nodes.contains(name)),
{
    if let Some(applied) = change {
        let (members, _) = roster->0;
        let names = text_views(members@);
        let before = old(node)@.known->0.ring.nodes;
        let name = choose|name: Seq<char>| #[trigger]
            before.contains(name) && !names.contains(name);
        assert(!final(node)@.known->0.ring.nodes.contains(name));
    }
}

} // verus!
