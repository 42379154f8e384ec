//! A client connection, request by request.
//!
//! A request begins with a decision; where the cache has to be asked, what it
//! answers ends it. The owner of the connection carries out the decision and
//! sends the replies.
use vstd::prelude::*;

use crate::cluster::SharedRing;
use crate::command::CasCondition;
use crate::command::named;
use crate::command::Command;
use crate::command::HandoffOperation;
use crate::command::KeyOperation;
use crate::command::MigrateRequest;
use crate::fault::failure;
use crate::fault::ConnectionError;
use crate::fault::ErrorKind;
use crate::forward::ForwardTarget;
use crate::forward::OwnedForwardedWrite;
use crate::forward::OwnedWriteView;
use crate::forward::TargetView;
use crate::key::key_views;
use crate::key::Key;
use crate::key::KeyView;
use crate::leave::leave_target_for;
use crate::limits::constant_time_eq;
use crate::limits::request_is_too_large;
use crate::limits::MAX_REQUEST_SIZE;
use crate::limits::REQUEST_BUFFER_SHRINK_THRESHOLD;
use crate::message::ClearScope;
use crate::migration::entries_to_send_count;
use crate::migration::found_in;
use crate::migration::fresh_slot;
use crate::migration::law_owed_keys_are_those_that_move;
use crate::migration::live_slot;
use crate::migration::migration_rings;
use crate::migration::owed_keys;
use crate::migration::reverted;
use crate::migration::roster_names;
use crate::migration::was_abandoned;
use crate::migration::Found;
use crate::migration::MigrationGuard;
use crate::migration::MigrationOutcome;
use crate::migration::SlotView;
use crate::node::abandon_migration;
use crate::node::abandoned;
use crate::node::joiner_target;
use crate::node::migration_target_for;
use crate::node::node_view;
use crate::node::route_clear;
use crate::node::wrong_node;
use crate::node::ClearRoute;
use crate::node::NodeContext;
use crate::node::NodeView;
use crate::response::ack_reply;
use crate::response::encode_multi;
use crate::response::encode_multi_ack;
use crate::response::encode_response;
use crate::response::encoded;
use crate::response::identity_tagged;
use crate::response::multi_reply;
use crate::response::multi_views;
use crate::response::MultiAckEntry;
use crate::response::MultiEntry;
use crate::response::MultiEntryView;
use crate::response::Response;
use crate::ring::HashRing;
use crate::ring::owns;
use crate::text::copy_bytes;
use crate::text::lemma_text_bytes_injective;
use crate::text::strictly_sorted;

verus! {

/// A point in time `wait` after `now`, or the end of time if that comes first.
pub open spec fn later(now: u128, wait: u128) -> u128 {
    if now + wait <= u128::MAX {
        (now + wait) as u128
    } else {
        u128::MAX
    }
}

/// A handoff that was asked for and that begins.
#[derive(Debug)]
pub struct BegunHandoff {
    pub guard: MigrationGuard,
    /// Copies to restore before the keys are listed.
    pub restore: Vec<Key>,
    pub before_ring: HashRing,
    pub after_ring: SharedRing,
}

/// How a request begins.
#[allow(inconsistent_fields)]
#[derive(Debug)]
pub enum Begin {
    /// Send the reply; the request is done.
    Reply(Vec<u8>),
    /// Send the reply, if there is one, and close the connection.
    Close { reply: Option<Vec<u8>>, error: ConnectionError },
    /// Run the request on the cache, send what `reply_to` makes of the answer,
    /// and go on with `finish_command`.
    Run,
    /// The same, for the keys at these places only.
    RunOwned(Vec<usize>),
    /// Restore copies, list the keys, and go on with `accept_handoff`.
    Handoff(BegunHandoff),
    /// Restore copies, then send the reply; the request is done.
    Restore { restore: Vec<Key>, reply: Vec<u8> },
}

impl Begin {
    pub open spec fn replies(self, bytes: Seq<u8>) -> bool {
        self matches Begin::Reply(reply) && reply@ == bytes
    }

    /// Whether the cache is asked for, or anything of the node.
    pub open spec fn goes_on(self) -> bool {
        !(self is Reply) && !(self is Close)
    }

    pub open spec fn closes(self, reply: Option<Seq<u8>>, kind: ErrorKind, text: Seq<char>) -> bool {
        self matches Begin::Close { reply: sent, error } && error.says(kind, text) && match sent {
            Some(bytes) => reply == Some(bytes@),
            None => reply is None,
        }
    }
}

/// The state of a connection.
#[derive(Clone, Copy, Debug)]
pub struct Connection {
    pub authenticated: bool,
    /// Whether every request carries a tag, to be echoed.
    pub tagged: bool,
    /// When the connection is closed if no request has been completed.
    pub deadline: u128,
}

/// Whether a secret is accepted.
pub open spec fn accepts(auth_secret: Option<Vec<u8>>, secret: Seq<u8>) -> bool {
    match auth_secret {
        Some(expected) => secret == expected@,
        None => true,
    }
}

/// Whether a request authenticates the connection it comes on.
pub open spec fn authenticates(command: Command, auth_secret: Option<Vec<u8>>) -> bool {
    command matches Command::Auth { secret, .. } && accepts(auth_secret, secret@)
}

/// What a request makes of a connection's authentication, and what it gets
/// without one.
pub open spec fn guards(
    before: Connection,
    command: Command,
    auth_secret: Option<Vec<u8>>,
    after: Connection,
    begun: Begin,
) -> bool {
    &&& after.authenticated == (before.authenticated || authenticates(command, auth_secret))
    &&& begun.goes_on() ==> before.authenticated
}

/// Over all the requests of a connection to a node with a secret, none gets past
/// its beginning before one of them has shown that secret.
pub proof fn law_no_request_goes_on_before_the_secret(
    connections: Seq<Connection>,
    commands: Seq<Command>,
    begun: Seq<Begin>,
    secret: Vec<u8>,
    index: int,
)
    requires
        connections.len() == commands.len() + 1,
        begun.len() == commands.len(),
        !connections[0].authenticated,
        forall|i: int|
            0 <= i < commands.len() ==> guards(
                connections[i],
                #[trigger] commands[i],
                Some(secret),
                connections[i + 1],
                begun[i],
            ),
        0 <= index < commands.len(),
        begun[index].goes_on(),
    ensures
        exists|i: int|
            0 <= i < index && (#[trigger] commands[i] matches Command::Auth { secret: shown, .. }
                && shown@ == secret@),
{
    assert(guards(
        connections[index],
        commands[index],
        Some(secret),
        connections[index + 1],
        begun[index],
    ));
    lemma_authenticated_by_a_secret(connections, commands, begun, secret, index);
}

proof fn lemma_authenticated_by_a_secret(
    connections: Seq<Connection>,
    commands: Seq<Command>,
    begun: Seq<Begin>,
    secret: Vec<u8>,
    index: int,
)
    requires
        connections.len() == commands.len() + 1,
        begun.len() == commands.len(),
        !connections[0].authenticated,
        forall|i: int|
            0 <= i < commands.len() ==> guards(
                connections[i],
                #[trigger] commands[i],
                Some(secret),
                connections[i + 1],
                begun[i],
            ),
        0 <= index <= commands.len(),
        connections[index].authenticated,
    ensures
        exists|i: int|
            0 <= i < index && (#[trigger] commands[i] matches Command::Auth { secret: shown, .. }
                && shown@ == secret@),
    decreases index,
{
    let last = index - 1;
    assert(index > 0);
    assert(guards(connections[last], commands[last], Some(secret), connections[index], begun[last]));
    if !authenticates(commands[last], Some(secret)) {
        lemma_authenticated_by_a_secret(connections, commands, begun, secret, last);
    }
}

/// The reply to an authentication.
pub open spec fn identity(response: Response, tagging: bool) -> Seq<u8> {
    if tagging {
        identity_tagged(response)
    } else {
        encoded(response, None)
    }
}

fn encode_identity(response: &Response, tagging: bool) -> (bytes: Vec<u8>)
    ensures
        bytes@ == identity(*response, tagging),
{
    if tagging {
        response.encode_identity_tagged()
    } else {
        response.encode()
    }
}

/// How a handoff that was asked for begins, at a node that is not leaving and
/// with the right token.
pub open spec fn handoff_begins(
    request: MigrateRequest,
    before: NodeView,
    after: NodeView,
    begun: Begin,
    ring_id: u64,
    now: u128,
) -> bool {
    let slot = live_slot(before.slot, now);
    let roster = roster_names(request.joined@);
    match found_in(slot, request.joining_name@, roster) {
        Found::Free { restore } => {
            &&& begun matches Begin::Handoff(handoff)
            &&& !handoff.guard.is_completed()
            &&& key_views(handoff.restore@) == restore
            &&& handoff.after_ring@.id == ring_id
            &&& strictly_sorted(handoff.before_ring@)
            &&& strictly_sorted(handoff.after_ring@.nodes)
            &&& forall|name: Seq<char>| #[trigger]
                handoff.before_ring@.contains(name) <==> (roster.contains(name) || name
                    == before.name)
            &&& forall|name: Seq<char>| #[trigger]
                handoff.after_ring@.nodes.contains(name) <==> (handoff.before_ring@.contains(name)
                    || name == request.joining_name@)
            &&& after == (NodeView {
                slot: Some(
                    fresh_slot(
                        request.joining_name@,
                        request.joining_addr@,
                        request.joining_token@,
                        handoff.after_ring@,
                        request.replication as nat,
                    ),
                ),
                known: match slot {
                    Some(previous) => if was_abandoned(previous, roster) {
                        reverted(before.known, previous)
                    } else {
                        before.known
                    },
                    None => before.known,
                },
                ..before
            })
        },
        Found::Acked { entries } => begun.replies(
            encoded(Response::MigrationAccepted(entries), None),
        ) && after == before,
        Found::Busy => begun.replies(encoded(Response::MigrationRejected, None)) && after == before,
    }
}

/// How discovery's request for a handoff begins.
pub open spec fn migrate_begins(
    request: MigrateRequest,
    before: Option<NodeView>,
    after: Option<NodeView>,
    begun: Begin,
    ring_id: u64,
    now: u128,
) -> bool {
    match before {
        None => begun.closes(
            None,
            ErrorKind::InvalidData,
            "received M but this node isn't configured with a discovery server"@,
        ) && after is None,
        Some(node) => if node.leaving is Some {
            begun.replies(encoded(Response::MigrationRejected, None)) && after == before
        } else if request.token@ != node.token {
            begun.closes(
                Some(encoded(Response::MigrationRejected, None)),
                ErrorKind::PermissionDenied,
                "M carried the wrong membership token"@,
            ) && after == before
        } else {
            after matches Some(changed) && handoff_begins(
                request,
                node,
                changed,
                begun,
                ring_id,
                now,
            )
        },
    }
}

/// Whether a token is the node's own.
fn token_matches(node: &NodeContext, token: &String) -> (matches: bool)
    ensures
        matches == (token@ == node@.token),
{
    let matches = constant_time_eq(token.as_str().as_bytes(), node.token.as_str().as_bytes());
    proof {
        if matches {
            lemma_text_bytes_injective(token@, node.token@);
        }
    }
    matches
}

fn begin_migrate(
    request: &MigrateRequest,
    node: &mut Option<NodeContext>,
    ring_id: u64,
    now: u128,
) -> (begun: Begin)
    ensures
        migrate_begins(
            *request,
            node_view(*old(node)),
            node_view(*final(node)),
            begun,
            ring_id,
            now,
        ),
{
    match node.as_mut() {
        None => Begin::Close {
            reply: None,
            error: failure(
                ErrorKind::InvalidData,
                "received M but this node isn't configured with a discovery server",
            ),
        },
        Some(context) => {
            if context.leaving.is_some() {
                return Begin::Reply(Response::MigrationRejected.encode());
            }
            if !token_matches(context, &request.token) {
                return Begin::Close {
                    reply: Some(Response::MigrationRejected.encode()),
                    error: failure(
                        ErrorKind::PermissionDenied,
                        "M carried the wrong membership token",
                    ),
                };
            }
            let (before_ring, after_nodes) = migration_rings(
                context.name.as_str(),
                request.joining_name.as_str(),
                &request.joined,
            );
            let after_ring = SharedRing { id: ring_id, ring: after_nodes };
            match MigrationGuard::new(
                &mut context.active_migration,
                request.joining_name.clone(),
                request.joining_addr.clone(),
                request.joining_token.clone(),
                after_ring.share(),
                request.replication,
                &request.joined,
                &mut context.known_ring,
                now,
            ) {
                MigrationOutcome::New { guard, restore } => Begin::Handoff(
                    BegunHandoff { guard, restore, before_ring, after_ring },
                ),
                MigrationOutcome::DuplicateAcked(entries) => Begin::Reply(
                    Response::MigrationAccepted(entries).encode(),
                ),
                MigrationOutcome::Conflict => Begin::Reply(Response::MigrationRejected.encode()),
            }
        },
    }
}

/// How discovery's cancellation of a handoff begins: with the wrong token the
/// connection is closed without a word; else it is acknowledged, whether or not
/// there is such a handoff.
pub open spec fn cancel_begins(
    token: Seq<char>,
    joining_name: Seq<char>,
    before: Option<NodeView>,
    after: Option<NodeView>,
    begun: Begin,
) -> bool {
    match before {
        None => begun.closes(
            None,
            ErrorKind::InvalidData,
            "received X but this node isn't configured with a discovery server"@,
        ) && after is None,
        Some(node) => if token != node.token {
            begun.closes(
                None,
                ErrorKind::PermissionDenied,
                "X carried the wrong membership token"@,
            ) && after == before
        } else {
            &&& after == Some(abandoned(node, joining_name))
            &&& begun matches Begin::Restore { restore, reply }
            &&& reply@ == encoded(Response::MigrationCancelled, None)
            &&& key_views(restore@) == match node.slot {
                Some(active) => if active.joining_name == joining_name
                    && active.completed_at is Some {
                    active.marked_keys
                } else {
                    Seq::empty()
                },
                None => Seq::empty(),
            }
        },
    }
}

fn begin_cancel(token: &String, joining_name: &String, node: &mut Option<NodeContext>) -> (begun:
    Begin)
    ensures
        cancel_begins(
            token@,
            joining_name@,
            node_view(*old(node)),
            node_view(*final(node)),
            begun,
        ),
{
    match node.as_mut() {
        None => Begin::Close {
            reply: None,
            error: failure(
                ErrorKind::InvalidData,
                "received X but this node isn't configured with a discovery server",
            ),
        },
        Some(context) => {
            if !token_matches(context, token) {
                return Begin::Close {
                    reply: None,
                    error: failure(
                        ErrorKind::PermissionDenied,
                        "X carried the wrong membership token",
                    ),
                };
            }
            let restore = match abandon_migration(context, joining_name.as_str()) {
                Some(keys) => keys,
                None => {
                    let none: Vec<Key> = Vec::new();
                    assert(key_views(none@) =~= Seq::empty());
                    none
                },
            };
            Begin::Restore { restore, reply: Response::MigrationCancelled.encode() }
        },
    }
}

/// Whether a key is another node's.
pub open spec fn is_wrong(node: Option<NodeView>, key: KeyView, now: u128) -> bool {
    match node {
        Some(context) => context.turns_away(key, now),
        None => false,
    }
}

/// The node once it has been asked whether a key is its own.
pub open spec fn after_check(node: Option<NodeView>, key: KeyView, now: u128) -> Option<NodeView> {
    match node {
        Some(context) => if context.displaced(key) {
            Some(context.swept(now))
        } else {
            node
        },
        None => None,
    }
}

fn check_key(node: &mut Option<NodeContext>, key: &Key, now: u128) -> (wrong: bool)
    ensures
        wrong == is_wrong(node_view(*old(node)), key@, now),
        node_view(*final(node)) == after_check(node_view(*old(node)), key@, now),
{
    match node.as_mut() {
        Some(context) => wrong_node(context, key, now),
        None => false,
    }
}

/// How a peer's write begins. It is applied whether or not the node owns the
/// key, but only with the node's own token.
pub open spec fn handoff_write_begins(
    operation: HandoffOperation,
    token: Seq<char>,
    tag: Option<u32>,
    node: Option<NodeView>,
    begun: Begin,
) -> bool {
    match node {
        None => begun.closes(
            None,
            ErrorKind::InvalidData,
            match operation {
                HandoffOperation::Store {
                    ..
                } => "received U but this node isn't configured with a discovery server"@,
                HandoffOperation::Delete => "received u but this node isn't configured with a discovery server"@,
            },
        ),
        Some(context) => if token != context.token {
            begun.closes(
                Some(encoded(Response::MigrationRejected, tag)),
                ErrorKind::PermissionDenied,
                match operation {
                    HandoffOperation::Store { .. } => "U carried the wrong membership token"@,
                    HandoffOperation::Delete => "u carried the wrong membership token"@,
                },
            )
        } else {
            begun is Run
        },
    }
}

fn begin_handoff_write(
    operation: &HandoffOperation,
    token: &String,
    tag: Option<u32>,
    node: &Option<NodeContext>,
) -> (begun: Begin)
    ensures
        handoff_write_begins(*operation, token@, tag, node_view(*node), begun),
{
    match node {
        None => {
            let text = match operation {
                HandoffOperation::Store {
                    ..
                } => "received U but this node isn't configured with a discovery server",
                HandoffOperation::Delete => "received u but this node isn't configured with a discovery server",
            };
            Begin::Close { reply: None, error: failure(ErrorKind::InvalidData, text) }
        },
        Some(context) => {
            if !token_matches(context, token) {
                let text = match operation {
                    HandoffOperation::Store { .. } => "U carried the wrong membership token",
                    HandoffOperation::Delete => "u carried the wrong membership token",
                };
                return Begin::Close {
                    reply: Some(encode_response(&Response::MigrationRejected, tag)),
                    error: failure(ErrorKind::PermissionDenied, text),
                };
            }
            Begin::Run
        },
    }
}

/// The places, among the first `count`, of the keys that are not another
/// node's.
pub open spec fn owned_places(
    node: Option<NodeView>,
    namespace: Seq<u8>,
    names: Seq<Vec<u8>>,
    count: nat,
    now: u128,
) -> Seq<usize>
    decreases count,
{
    if count == 0 {
        Seq::empty()
    } else {
        let rest = owned_places(node, namespace, names, (count - 1) as nat, now);
        if is_wrong(node, named(namespace, names, count - 1), now) {
            rest
        } else {
            rest.push((count - 1) as usize)
        }
    }
}

/// The node once it has been asked of the first `count` keys.
pub open spec fn after_checks(
    node: Option<NodeView>,
    namespace: Seq<u8>,
    names: Seq<Vec<u8>>,
    count: nat,
    now: u128,
) -> Option<NodeView>
    decreases count,
{
    if count == 0 {
        node
    } else {
        after_check(
            after_checks(node, namespace, names, (count - 1) as nat, now),
            named(namespace, names, count - 1),
            now,
        )
    }
}

proof fn lemma_check_is_stable(node: Option<NodeView>, key: KeyView, other: KeyView, now: u128)
    ensures
        is_wrong(after_check(node, key, now), other, now) == is_wrong(node, other, now),
{
}

proof fn lemma_checks_are_stable(
    node: Option<NodeView>,
    namespace: Seq<u8>,
    names: Seq<Vec<u8>>,
    count: nat,
    other: KeyView,
    now: u128,
)
    ensures
        is_wrong(after_checks(node, namespace, names, count, now), other, now) == is_wrong(
            node,
            other,
            now,
        ),
    decreases count,
{
    if count > 0 {
        lemma_checks_are_stable(node, namespace, names, (count - 1) as nat, other, now);
        lemma_check_is_stable(
            after_checks(node, namespace, names, (count - 1) as nat, now),
            named(namespace, names, count - 1),
            other,
            now,
        );
    }
}

/// Finds the keys that are not another node's.
fn find_owned(
    namespace: &Vec<u8>,
    names: &Vec<Vec<u8>>,
    node: &mut Option<NodeContext>,
    now: u128,
) -> (places: Vec<usize>)
    ensures
        places@ == owned_places(
            node_view(*old(node)),
            namespace@,
            names@,
            names@.len(),
            now,
        ),
        node_view(*final(node)) == after_checks(
            node_view(*old(node)),
            namespace@,
            names@,
            names@.len(),
            now,
        ),
{
    let ghost start = node_view(*node);
    let mut places: Vec<usize> = Vec::new();
    let mut index: usize = 0;
    while index < names.len()
        invariant
            index <= names.len(),
            places@ == owned_places(start, namespace@, names@, index as nat, now),
            node_view(*node) == after_checks(start, namespace@, names@, index as nat, now),
        decreases names.len() - index,
    {
        let key = Key::new(copy_bytes(namespace.as_slice()), copy_bytes(names[index].as_slice()));
        assert(key@ == named(namespace@, names@, index as int));
        proof {
            lemma_checks_are_stable(start, namespace@, names@, index as nat, key@, now);
        }
        if !check_key(node, &key, now) {
            places.push(index);
        }
        index += 1;
    }
    places
}

/// The answer for each of `total` keys: what the cache said of those at
/// `places`, in order, and of the others that they are another node's.
pub open spec fn spliced(
    total: nat,
    places: Seq<usize>,
    results: Seq<MultiEntryView>,
) -> Seq<MultiEntryView> {
    Seq::new(
        total,
        |i: int|
            if places.contains(i as usize) {
                results[places.index_of(i as usize)]
            } else {
                MultiEntryView::WrongNode
            },
    )
}

/// The same of a write.
pub open spec fn spliced_acks(
    total: nat,
    places: Seq<usize>,
    results: Seq<MultiAckEntry>,
) -> Seq<MultiAckEntry> {
    Seq::new(
        total,
        |i: int|
            if places.contains(i as usize) {
                results[places.index_of(i as usize)]
            } else {
                MultiAckEntry::WrongNode
            },
    )
}

/// Places in order, each below `total`.
pub open spec fn are_places(places: Seq<usize>, total: nat) -> bool {
    &&& forall|i: int, j: int| 0 <= i < j < places.len() ==> #[trigger] places[i] < #[trigger] places[j]
    &&& forall|i: int| 0 <= i < places.len() ==> #[trigger] places[i] < total
}

/// Of a request for several keys exactly those that this node serves reach the
/// cache, in their order.
pub proof fn law_only_served_keys_reach_the_cache(
    node: Option<NodeView>,
    namespace: Seq<u8>,
    names: Seq<Vec<u8>>,
    count: nat,
    now: u128,
)
    requires
        count <= usize::MAX,
    ensures
        are_places(owned_places(node, namespace, names, count, now), count),
        forall|i: int|
            0 <= i < count ==> (#[trigger] owned_places(
                node,
                namespace,
                names,
                count,
                now,
            ).contains(i as usize) <==> !is_wrong(node, named(namespace, names, i), now)),
    decreases count,
{
    if count > 0 {
        let rest = owned_places(node, namespace, names, (count - 1) as nat, now);
        let all = owned_places(node, namespace, names, count, now);
        law_only_served_keys_reach_the_cache(node, namespace, names, (count - 1) as nat, now);
        assert forall|i: int| 0 <= i < count implies (#[trigger] all.contains(i as usize)
            <==> !is_wrong(node, named(namespace, names, i), now)) by {
            if i < count - 1 {
                assert(rest.contains(i as usize) <==> !is_wrong(
                    node,
                    named(namespace, names, i),
                    now,
                ));
                if rest.contains(i as usize) {
                    assert(all[rest.index_of(i as usize)] == i as usize);
                }
                if all.contains(i as usize) {
                    let j = all.index_of(i as usize);
                    if j < rest.len() {
                        assert(rest[j] == i as usize);
                    }
                }
            } else {
                if !is_wrong(node, named(namespace, names, i), now) {
                    assert(all[rest.len() as int] == i as usize);
                } else if rest.contains(i as usize) {
                    let j = rest.index_of(i as usize);
                    assert(rest[j] < count - 1);
                }
            }
        }
    }
}

/// The answers of a read of several keys.
fn splice(total: usize, places: &Vec<usize>, results: &Vec<MultiEntry>) -> (entries: Vec<MultiEntry>)
    requires
        are_places(places@, total as nat),
        results.len() == places.len(),
    ensures
        multi_views(entries@) == spliced(
            total as nat,
            places@,
            multi_views(results@),
        ),
{
    let ghost views = multi_views(results@);
    let mut entries: Vec<MultiEntry> = Vec::new();
    let mut used: usize = 0;
    let mut index: usize = 0;
    while index < total
        invariant
            index <= total,
            used <= places.len(),
            entries.len() == index,
            results.len() == places.len(),
            are_places(places@, total as nat),
            views == multi_views(results@),
            forall|i: int| 0 <= i < used ==> #[trigger] places@[i] < index,
            forall|i: int| used <= i < places@.len() ==> #[trigger] places@[i] >= index,
            forall|i: int|
                0 <= i < index ==> (#[trigger] entries@[i])@ == spliced(
                    total as nat,
                    places@,
                    views,
                )[i],
        decreases total - index,
    {
        if used < places.len() && places[used] == index {
            proof {
                lemma_place(places@, total as nat, used as int);
                assert(views[used as int] == results@[used as int]@);
            }
            entries.push(results[used].clone());
            used += 1;
        } else {
            assert(!places@.contains(index)) by {
                if places@.contains(index) {
                    let j = places@.index_of(index);
                    assert(places@[j] == index);
                    if j > used {
                        assert(places@[used as int] < places@[j]);
                    }
                }
            }
            entries.push(MultiEntry::WrongNode);
        }
        index += 1;
    }
    assert(multi_views(entries@) =~= spliced(total as nat, places@, views));
    entries
}

proof fn lemma_place(places: Seq<usize>, total: nat, index: int)
    requires
        are_places(places, total),
        0 <= index < places.len(),
    ensures
        places.contains(places[index]),
        places.index_of(places[index]) == index,
{
    assert(places.contains(places[index]));
    let j = places.index_of(places[index]);
    if j < index {
        assert(places[j] < places[index]);
    }
    if j > index {
        assert(places[index] < places[j]);
    }
}

/// The answers of a write of several keys.
fn splice_acks(total: usize, places: &Vec<usize>, results: &Vec<MultiAckEntry>) -> (entries: Vec<
    MultiAckEntry,
>)
    requires
        are_places(places@, total as nat),
        results.len() == places.len(),
    ensures
        entries@ == spliced_acks(total as nat, places@, results@),
{
    let mut entries: Vec<MultiAckEntry> = Vec::new();
    let mut used: usize = 0;
    let mut index: usize = 0;
    while index < total
        invariant
            index <= total,
            used <= places.len(),
            entries.len() == index,
            results.len() == places.len(),
            are_places(places@, total as nat),
            forall|i: int| 0 <= i < used ==> #[trigger] places@[i] < index,
            forall|i: int| used <= i < places@.len() ==> #[trigger] places@[i] >= index,
            forall|i: int|
                0 <= i < index ==> #[trigger] entries@[i] == spliced_acks(
                    total as nat,
                    places@,
                    results@,
                )[i],
        decreases total - index,
    {
        if used < places.len() && places[used] == index {
            proof {
                lemma_place(places@, total as nat, used as int);
            }
            entries.push(results[used]);
            used += 1;
        } else {
            assert(!places@.contains(index)) by {
                if places@.contains(index) {
                    let j = places@.index_of(index);
                    assert(places@[j] == index);
                    if j > used {
                        assert(places@[used as int] < places@[j]);
                    }
                }
            }
            entries.push(MultiAckEntry::WrongNode);
        }
        index += 1;
    }
    assert(entries@ =~= spliced_acks(total as nat, places@, results@));
    entries
}

/// How a request begins once the connection is authenticated.
pub open spec fn request_begins(
    command: Command,
    tag: Option<u32>,
    before: Option<NodeView>,
    after: Option<NodeView>,
    begun: Begin,
    ring_id: u64,
    now: u128,
) -> bool {
    match command {
        Command::Auth { .. } => true,
        Command::Migrate(request) => migrate_begins(request, before, after, begun, ring_id, now),
        Command::CancelMigration { token, joining_name } => cancel_begins(
            token@,
            joining_name@,
            before,
            after,
            begun,
        ),
        Command::Keyed { key, .. } => {
            &&& after == after_check(before, key@, now)
            &&& if is_wrong(before, key@, now) {
                begun.replies(encoded(Response::WrongNode, tag))
            } else {
                begun is Run
            }
        },
        Command::Handoff { operation, token, .. } => after == before && handoff_write_begins(
            operation,
            token@,
            tag,
            before,
            begun,
        ),
        Command::MultiGet { namespace, keys } => {
            let places = owned_places(before, namespace@, keys@, keys@.len(), now);
            &&& after == after_checks(before, namespace@, keys@, keys@.len(), now)
            &&& if places.len() == 0 {
                begun.replies(multi_reply(spliced(keys@.len(), places, Seq::empty()), tag))
            } else {
                begun matches Begin::RunOwned(found) && found@ == places
            }
        },
        Command::MultiSet { namespace, keys, .. } => {
            let places = owned_places(before, namespace@, keys@, keys@.len(), now);
            &&& after == after_checks(before, namespace@, keys@, keys@.len(), now)
            &&& if places.len() == 0 {
                begun.replies(ack_reply(spliced_acks(keys@.len(), places, Seq::empty()), tag))
            } else {
                begun matches Begin::RunOwned(found) && found@ == places
            }
        },
        Command::Clear(_) => after == before && begun is Run,
    }
}

impl Connection {
    /// A fresh connection. Without a secret it needs no authentication.
    pub fn new(auth_secret: &Option<Vec<u8>>, idle_timeout: u128, now: u128) -> (connection:
        Connection)
        ensures
            connection == (Connection {
                authenticated: *auth_secret is None,
                tagged: false,
                deadline: later(now, idle_timeout),
            }),
    {
        Connection {
            authenticated: auth_secret.is_none(),
            tagged: false,
            deadline: now.saturating_add(idle_timeout),
        }
    }

    /// Begins a request that came in whole; only that renews the deadline.
    /// `ring_id` is the number of the ring that the request may bring about.
    pub fn begin_command(
        &mut self,
        command: &Command,
        tag: Option<u32>,
        auth_secret: &Option<Vec<u8>>,
        node: &mut Option<NodeContext>,
        idle_timeout: u128,
        ring_id: u64,
        now: u128,
    ) -> (begun: Begin)
        requires
            command.wf(),
        ensures
            final(self).deadline == later(now, idle_timeout),
            guards(*old(self), *command, *auth_secret, *final(self), begun),
            match *command {
                Command::Auth { secret, tagging } => {
                    &&& node_view(*final(node)) == node_view(*old(node))
                    &&& if accepts(*auth_secret, secret@) {
                        &&& begun.replies(identity(Response::AuthOk, tagging))
                        &&& final(self).authenticated
                        &&& final(self).tagged == tagging
                    } else {
                        &&& begun.closes(
                            Some(identity(Response::Unauthorized, tagging)),
                            ErrorKind::PermissionDenied,
                            "invalid auth secret"@,
                        )
                        &&& final(self).authenticated == old(self).authenticated
                        &&& final(self).tagged == old(self).tagged
                    }
                },
                _ => {
                    &&& final(self).authenticated == old(self).authenticated
                    &&& final(self).tagged == old(self).tagged
                    &&& if !old(self).authenticated {
                        &&& node_view(*final(node)) == node_view(*old(node))
                        &&& begun.closes(
                            Some(encoded(Response::Unauthorized, None)),
                            ErrorKind::PermissionDenied,
                            "command sent before authenticating"@,
                        )
                    } else {
                        request_begins(
                            *command,
                            tag,
                            node_view(*old(node)),
                            node_view(*final(node)),
                            begun,
                            ring_id,
                            now,
                        )
                    }
                },
            },
    {
        self.deadline = now.saturating_add(idle_timeout);
        if let Command::Auth { secret, tagging } = command {
            let accepted = match auth_secret {
                Some(expected) => constant_time_eq(secret.as_slice(), expected.as_slice()),
                None => true,
            };
            if accepted {
                self.authenticated = true;
                self.tagged = *tagging;
                return Begin::Reply(encode_identity(&Response::AuthOk, *tagging));
            }
            return Begin::Close {
                reply: Some(encode_identity(&Response::Unauthorized, *tagging)),
                error: failure(ErrorKind::PermissionDenied, "invalid auth secret"),
            };
        }
        if !self.authenticated {
            return Begin::Close {
                reply: Some(Response::Unauthorized.encode()),
                error: failure(ErrorKind::PermissionDenied, "command sent before authenticating"),
            };
        }
        begin_request(command, tag, node, ring_id, now)
    }
}

fn begin_request(
    command: &Command,
    tag: Option<u32>,
    node: &mut Option<NodeContext>,
    ring_id: u64,
    now: u128,
) -> (begun: Begin)
    requires
        command.wf(),
        !(*command is Auth),
    ensures
        request_begins(
            *command,
            tag,
            node_view(*old(node)),
            node_view(*final(node)),
            begun,
            ring_id,
            now,
        ),
{
    match command {
        Command::Auth { .. } => Begin::Run,
        Command::Migrate(request) => begin_migrate(request, node, ring_id, now),
        Command::CancelMigration { token, joining_name } => begin_cancel(token, joining_name, node),
        Command::Keyed { key, .. } => {
            if check_key(node, key, now) {
                return Begin::Reply(encode_response(&Response::WrongNode, tag));
            }
            Begin::Run
        },
        Command::Handoff { operation, token, .. } => begin_handoff_write(
            operation,
            token,
            tag,
            node,
        ),
        Command::MultiGet { namespace, keys } => {
            let places = find_owned(namespace, keys, node, now);
            if places.len() == 0 {
                let none: Vec<MultiEntry> = Vec::new();
                assert(multi_views(none@) =~= Seq::empty());
                assert(places@ =~= Seq::empty());
                return Begin::Reply(encode_multi(splice(keys.len(), &places, &none), tag));
            }
            Begin::RunOwned(places)
        },
        Command::MultiSet { namespace, keys, .. } => {
            let places = find_owned(namespace, keys, node, now);
            if places.len() == 0 {
                let none: Vec<MultiAckEntry> = Vec::new();
                assert(none@ =~= Seq::empty());
                assert(places@ =~= Seq::empty());
                return Begin::Reply(encode_multi_ack(splice_acks(keys.len(), &places, &none), tag));
            }
            Begin::RunOwned(places)
        },
        Command::Clear(_) => Begin::Run,
    }
}

/// The number of entries that a handoff is acknowledged with: the keys owed, or
/// none if the cache could not be asked.
pub open spec fn entries_owed(
    keys: Option<Vec<Key>>,
    before: Seq<Seq<char>>,
    after: Seq<Seq<char>>,
    self_name: Seq<char>,
    joining_name: Seq<char>,
    replication: nat,
) -> nat {
    match keys {
        Some(listed) => owed_keys(
            key_views(listed@),
            before,
            after,
            self_name,
            joining_name,
            replication,
        ).len(),
        None => 0,
    }
}

/// Acknowledges a handoff that begins. The number of entries is noted before
/// the reply goes out, so that a repeated request gets the same reply.
pub fn accept_handoff(
    node: &mut NodeContext,
    handoff: &BegunHandoff,
    joining_name: &str,
    replication: usize,
    keys: &Option<Vec<Key>>,
) -> (reply: Vec<u8>)
    ensures
        ({
            let entries = entries_owed(
                *keys,
                handoff.before_ring@,
                handoff.after_ring@.nodes,
                old(node)@.name,
                joining_name@,
                replication as nat,
            );
            &&& entries <= usize::MAX
            &&& reply@ == encoded(Response::MigrationAccepted(entries as usize), None)
            &&& final(node)@ == (NodeView {
                slot: match old(node)@.slot {
                    Some(active) => Some(
                        SlotView { acked_entries: Some(entries as usize), ..active },
                    ),
                    None => None,
                },
                ..old(node)@
            })
        }),
{
    let entries: usize = match keys {
        Some(listed) => entries_to_send_count(
            listed,
            &handoff.before_ring,
            &handoff.after_ring.ring,
            node.name.as_str(),
            joining_name,
            replication,
        ),
        None => 0,
    };
    handoff.guard.ack(&mut node.active_migration, entries);
    Response::MigrationAccepted(entries).encode()
}

/// What a request changed in a key.
pub enum Change {
    Store { value: Seq<u8>, ttl: Option<u128> },
    Delete,
}

/// What a client's request changed, given what the cache answered. A plain
/// store or deletion is passed on in any case; an increment is passed on as
/// the value it led to, and a conditional write only if it applied, as what it
/// wrote.
pub open spec fn change_of(operation: KeyOperation, response: Response) -> Option<Change> {
    match operation {
        KeyOperation::Get => None,
        KeyOperation::Store { value, ttl } => Some(Change::Store { value: value@, ttl }),
        KeyOperation::Delete => Some(Change::Delete),
        KeyOperation::Incr { .. } => match response {
            Response::Incremented(value, ttl) => Some(Change::Store { value: value@, ttl }),
            _ => None,
        },
        KeyOperation::CasStore { value, ttl, .. } => if response is Stored {
            Some(Change::Store { value: value@, ttl })
        } else {
            None
        },
        KeyOperation::CasDelete { .. } => if response is Deleted {
            Some(Change::Delete)
        } else {
            None
        },
    }
}

/// What a peer's request changed for a joining node. A store that gave way to
/// what was there may have changed nothing, and is not passed on.
pub open spec fn handoff_change_of(operation: HandoffOperation) -> Option<Change> {
    match operation {
        HandoffOperation::Store { value, ttl, if_absent } => if if_absent {
            None
        } else {
            Some(Change::Store { value: value@, ttl })
        },
        HandoffOperation::Delete => Some(Change::Delete),
    }
}

/// A write to be passed on.
#[derive(Debug)]
pub struct Forward {
    pub target: ForwardTarget,
    pub write: OwnedForwardedWrite,
}

#[verifier::ext_equal]
pub struct ForwardView {
    pub target: TargetView,
    pub write: OwnedWriteView,
}

impl View for Forward {
    type V = ForwardView;

    open spec fn view(&self) -> ForwardView {
        ForwardView { target: self.target@, write: self.write@ }
    }
}

/// The views of a list of writes.
pub open spec fn forward_views(forwards: Seq<Forward>) -> Seq<ForwardView> {
    forwards.map_values(|forward: Forward| forward@)
}

/// A change as it goes to a joining node.
pub open spec fn join_write(key: KeyView, change: Change) -> OwnedWriteView {
    match change {
        Change::Store { value, ttl } => OwnedWriteView::Store { key, value, ttl },
        Change::Delete => OwnedWriteView::Delete { key },
    }
}

/// A change as it goes to a node that does not own the key yet.
pub open spec fn leave_write(key: KeyView, change: Change) -> OwnedWriteView {
    match change {
        Change::Store { value, ttl } => OwnedWriteView::HandoffSet { key, value, ttl },
        Change::Delete => OwnedWriteView::HandoffDelete { key },
    }
}

/// Where a change is passed on to for the sake of a handoff.
pub open spec fn join_forwards(
    node: Option<NodeView>,
    key: KeyView,
    change: Change,
    now: u128,
) -> Seq<ForwardView> {
    match node {
        Some(context) => match context.join_target(key, now) {
            Some(target) => seq![ForwardView { target, write: join_write(key, change) }],
            None => Seq::empty(),
        },
        None => Seq::empty(),
    }
}

/// Where a change is passed on to while the node leaves.
pub open spec fn leave_forwards(node: Option<NodeView>, key: KeyView, change: Change) -> Seq<
    ForwardView,
> {
    match node {
        Some(context) => match context.leave_target(key) {
            Some(target) => seq![ForwardView { target, write: leave_write(key, change) }],
            None => Seq::empty(),
        },
        None => Seq::empty(),
    }
}

/// The node with what is over cleared from its slot.
pub open spec fn swept_node(node: Option<NodeView>, now: u128) -> Option<NodeView> {
    match node {
        Some(context) => Some(context.swept(now)),
        None => None,
    }
}

/// A change, by what it holds.
enum OwnedChange<'a> {
    Store { value: &'a Vec<u8>, ttl: Option<u128> },
    Delete,
}

impl<'a> OwnedChange<'a> {
    spec fn change(self) -> Change {
        match self {
            OwnedChange::Store { value, ttl } => Change::Store { value: value@, ttl },
            OwnedChange::Delete => Change::Delete,
        }
    }
}

fn push_join_forward(
    forwards: &mut Vec<Forward>,
    node: &mut Option<NodeContext>,
    key: &Key,
    change: &OwnedChange,
    now: u128,
)
    ensures
        forward_views(final(forwards)@) == forward_views(old(forwards)@) + join_forwards(
            node_view(*old(node)),
            key@,
            change.change(),
            now,
        ),
        node_view(*final(node)) == swept_node(node_view(*old(node)), now),
{
    let ghost before = forwards@;
    match node.as_mut() {
        Some(context) => {
            match migration_target_for(context, key, now) {
                Some(target) => {
                    let write = match change {
                        OwnedChange::Store { value, ttl } => OwnedForwardedWrite::Store {
                            key: key.clone(),
                            value: copy_bytes(value.as_slice()),
                            ttl: *ttl,
                        },
                        OwnedChange::Delete => OwnedForwardedWrite::Delete { key: key.clone() },
                    };
                    let forward = Forward { target, write };
                    let ghost added = forward@;
                    forwards.push(forward);
                    assert(forward_views(forwards@) =~= forward_views(before) + seq![added]);
                },
                None => {
                    assert(forward_views(forwards@) =~= forward_views(before)
                        + Seq::<ForwardView>::empty());
                },
            }
        },
        None => {
            assert(forward_views(forwards@) =~= forward_views(before) + Seq::<
                ForwardView,
            >::empty());
        },
    }
}

fn push_leave_forward(
    forwards: &mut Vec<Forward>,
    node: &Option<NodeContext>,
    key: &Key,
    change: &OwnedChange,
)
    ensures
        forward_views(final(forwards)@) == forward_views(old(forwards)@) + leave_forwards(
            node_view(*node),
            key@,
            change.change(),
        ),
{
    let ghost before = forwards@;
    match node {
        Some(context) => {
            match leave_target_for(&context.leaving, context.name.as_str(), key) {
                Some(target) => {
                    let write = match change {
                        OwnedChange::Store { value, ttl } => OwnedForwardedWrite::HandoffSet {
                            key: key.clone(),
                            value: copy_bytes(value.as_slice()),
                            ttl: *ttl,
                        },
                        OwnedChange::Delete => OwnedForwardedWrite::HandoffDelete {
                            key: key.clone(),
                        },
                    };
                    let forward = Forward { target, write };
                    let ghost added = forward@;
                    forwards.push(forward);
                    assert(forward_views(forwards@) =~= forward_views(before) + seq![added]);
                },
                None => {
                    assert(forward_views(forwards@) =~= forward_views(before)
                        + Seq::<ForwardView>::empty());
                },
            }
        },
        None => {
            assert(forward_views(forwards@) =~= forward_views(before) + Seq::<
                ForwardView,
            >::empty());
        },
    }
}

/// Where a client's change is passed on to.
pub open spec fn change_forwards(
    node: Option<NodeView>,
    key: KeyView,
    change: Option<Change>,
    now: u128,
) -> Seq<ForwardView> {
    match change {
        Some(made) => join_forwards(node, key, made, now) + leave_forwards(node, key, made),
        None => Seq::empty(),
    }
}

/// The node once a change has been passed on.
pub open spec fn after_change(node: Option<NodeView>, change: Option<Change>, now: u128) -> Option<
    NodeView,
> {
    match change {
        Some(_) => swept_node(node, now),
        None => node,
    }
}

fn push_change(
    forwards: &mut Vec<Forward>,
    node: &mut Option<NodeContext>,
    key: &Key,
    change: &OwnedChange,
    now: u128,
)
    ensures
        forward_views(final(forwards)@) == forward_views(old(forwards)@) + change_forwards(
            node_view(*old(node)),
            key@,
            Some(change.change()),
            now,
        ),
        node_view(*final(node)) == swept_node(node_view(*old(node)), now),
{
    let ghost before = forward_views(forwards@);
    let ghost start = node_view(*node);
    push_join_forward(forwards, node, key, change, now);
    assert(leave_forwards(node_view(*node), key@, change.change()) == leave_forwards(
        start,
        key@,
        change.change(),
    ));
    push_leave_forward(forwards, node, key, change);
    assert(forward_views(forwards@) =~= before + (join_forwards(start, key@, change.change(), now)
        + leave_forwards(start, key@, change.change())));
}

/// Where the stores of a write of several keys are passed on to: each of the
/// first `count` that the cache stored, in order.
pub open spec fn multi_forwards(
    node: Option<NodeView>,
    namespace: Seq<u8>,
    names: Seq<Vec<u8>>,
    values: Seq<Vec<u8>>,
    ttl: Option<u128>,
    places: Seq<usize>,
    results: Seq<MultiAckEntry>,
    count: nat,
    now: u128,
) -> Seq<ForwardView>
    decreases count,
{
    if count == 0 {
        Seq::empty()
    } else {
        let rest = multi_forwards(
            node,
            namespace,
            names,
            values,
            ttl,
            places,
            results,
            (count - 1) as nat,
            now,
        );
        let place = places[count - 1] as int;
        if results[count - 1] == MultiAckEntry::Stored {
            rest + change_forwards(
                node,
                named(namespace, names, place),
                Some(Change::Store { value: values[place]@, ttl }),
                now,
            )
        } else {
            rest
        }
    }
}

/// Whether the cache stored one of the first `count` keys.
pub open spec fn any_stored(results: Seq<MultiAckEntry>, count: nat) -> bool {
    exists|i: int| 0 <= i < count && #[trigger] results[i] == MultiAckEntry::Stored
}

fn push_multi_forwards(
    forwards: &mut Vec<Forward>,
    node: &mut Option<NodeContext>,
    namespace: &Vec<u8>,
    names: &Vec<Vec<u8>>,
    values: &Vec<Vec<u8>>,
    ttl: Option<u128>,
    places: &Vec<usize>,
    results: &Vec<MultiAckEntry>,
    now: u128,
)
    requires
        old(forwards)@.len() == 0,
        are_places(places@, names@.len()),
        names.len() == values.len(),
        results.len() == places.len(),
    ensures
        forward_views(final(forwards)@) == multi_forwards(
            node_view(*old(node)),
            namespace@,
            names@,
            values@,
            ttl,
            places@,
            results@,
            results@.len(),
            now,
        ),
        node_view(*final(node)) == if any_stored(results@, results@.len()) {
            swept_node(node_view(*old(node)), now)
        } else {
            node_view(*old(node))
        },
{
    let ghost start = node_view(*node);
    let mut index: usize = 0;
    assert(forward_views(forwards@) =~= Seq::empty());
    while index < results.len()
        invariant
            index <= results.len(),
            results.len() == places.len(),
            names.len() == values.len(),
            are_places(places@, names@.len()),
            forward_views(forwards@) == multi_forwards(
                start,
                namespace@,
                names@,
                values@,
                ttl,
                places@,
                results@,
                index as nat,
                now,
            ),
            node_view(*node) == if any_stored(results@, index as nat) {
                swept_node(start, now)
            } else {
                start
            },
        decreases results.len() - index,
    {
        let stored = match results[index] {
            MultiAckEntry::Stored => true,
            MultiAckEntry::WrongNode => false,
        };
        if stored {
            let place: usize = places[index];
            let key = Key::new(
                copy_bytes(namespace.as_slice()),
                copy_bytes(names[place].as_slice()),
            );
            assert(key@ == named(namespace@, names@, place as int));
            let change = OwnedChange::Store { value: &values[place], ttl };
            proof {
                lemma_forwards_ignore_sweep(start, key@, change.change(), now);
                assert(results@[index as int] == MultiAckEntry::Stored);
                assert(any_stored(results@, (index + 1) as nat));
            }
            push_change(forwards, node, &key, &change, now);
        } else {
            assert(any_stored(results@, (index + 1) as nat) == any_stored(
                results@,
                index as nat,
            )) by {
                if any_stored(results@, (index + 1) as nat) {
                    let i = choose|i: int|
                        0 <= i < index + 1 && #[trigger] results@[i] == MultiAckEntry::Stored;
                    assert(i < index);
                }
            }
        }
        index += 1;
    }
}

proof fn lemma_forwards_ignore_sweep(
    node: Option<NodeView>,
    key: KeyView,
    change: Change,
    now: u128,
)
    ensures
        change_forwards(swept_node(node, now), key, Some(change), now) == change_forwards(
            node,
            key,
            Some(change),
            now,
        ),
        swept_node(swept_node(node, now), now) == swept_node(node, now),
{
}

/// Where a clear is passed on to.
pub open spec fn clear_forwards(node: Option<NodeView>, scope: ClearScope, now: u128) -> Seq<
    ForwardView,
> {
    match node {
        Some(context) => match live_slot(context.slot, now) {
            Some(active) => if active.completed_at is Some && active.forwards(now) {
                seq![
                    ForwardView {
                        target: joiner_target(active),
                        write: OwnedWriteView::Clear { scope: scope@ },
                    },
                ]
            } else {
                Seq::empty()
            },
            None => Seq::empty(),
        },
        None => Seq::empty(),
    }
}

/// The node once a clear has been routed: a handoff that transfers has it
/// waiting.
pub open spec fn after_clear(node: Option<NodeView>, scope: ClearScope, now: u128) -> Option<
    NodeView,
> {
    match node {
        Some(context) => match live_slot(context.slot, now) {
            Some(active) => if active.completed_at is None {
                Some(
                    NodeView {
                        slot: Some(
                            SlotView {
                                pending_clears: active.pending_clears.push(scope@),
                                ..active
                            },
                        ),
                        ..context
                    },
                )
            } else {
                node
            },
            None => Some(context.swept(now)),
        },
        None => None,
    }
}

/// Whether a request can end with what the cache answered: one of several keys
/// has an answer for each of its places.
pub open spec fn can_finish(command: Command, places: Seq<usize>, response: Response) -> bool {
    match command {
        Command::Keyed { .. } | Command::Handoff { .. } | Command::Clear(_) => true,
        Command::MultiGet { keys, .. } => {
            &&& are_places(places, keys@.len())
            &&& response matches Response::Multi(results)
            &&& results.len() == places.len()
        },
        Command::MultiSet { keys, values, .. } => {
            &&& are_places(places, keys@.len())
            &&& keys.len() == values.len()
            &&& response matches Response::MultiAck(results)
            &&& results.len() == places.len()
        },
        _ => false,
    }
}

fn check_places(places: &Vec<usize>, total: usize) -> (sound: bool)
    ensures
        sound == are_places(places@, total as nat),
{
    let mut index: usize = 0;
    while index < places.len()
        invariant
            index <= places.len(),
            forall|i: int, j: int|
                0 <= i < j < index ==> #[trigger] places@[i] < #[trigger] places@[j],
            forall|i: int| 0 <= i < index ==> #[trigger] places@[i] < total,
        decreases places.len() - index,
    {
        if places[index] >= total {
            assert(places@[index as int] >= total);
            return false;
        }
        if index > 0 && places[index - 1] >= places[index] {
            assert(places@[index - 1] >= places@[index as int]);
            return false;
        }
        index += 1;
    }
    true
}

/// Tests whether a request can end with what the cache answered.
pub fn answer_fits(command: &Command, places: &Vec<usize>, response: &Response) -> (fits: bool)
    ensures
        fits == can_finish(*command, places@, *response),
{
    match command {
        Command::Keyed { .. } | Command::Handoff { .. } | Command::Clear(_) => true,
        Command::MultiGet { keys, .. } => match response {
            Response::Multi(results) => check_places(places, keys.len()) && results.len()
                == places.len(),
            _ => false,
        },
        Command::MultiSet { keys, values, .. } => match response {
            Response::MultiAck(results) => check_places(places, keys.len()) && keys.len()
                == values.len() && results.len() == places.len(),
            _ => false,
        },
        _ => false,
    }
}

/// The reply to a request, given what the cache answered.
pub open spec fn reply_of(
    command: Command,
    tag: Option<u32>,
    places: Seq<usize>,
    response: Response,
) -> Seq<u8> {
    match (command, response) {
        (Command::MultiGet { keys, .. }, Response::Multi(results)) => multi_reply(
            spliced(keys@.len(), places, multi_views(results@)),
            tag,
        ),
        (Command::MultiSet { keys, .. }, Response::MultiAck(results)) => ack_reply(
            spliced_acks(keys@.len(), places, results@),
            tag,
        ),
        _ => encoded(response, tag),
    }
}

/// Writes out the reply to a request. `places` are those that the request of
/// several keys was run for.
pub fn reply_to(
    command: &Command,
    tag: Option<u32>,
    places: &Vec<usize>,
    response: &Response,
) -> (reply: Vec<u8>)
    requires
        can_finish(*command, places@, *response),
    ensures
        reply@ == reply_of(*command, tag, places@, *response),
{
    match (command, response) {
        (Command::MultiGet { keys, .. }, Response::Multi(results)) => encode_multi(
            splice(keys.len(), places, results),
            tag,
        ),
        (Command::MultiSet { keys, .. }, Response::MultiAck(results)) => encode_multi_ack(
            splice_acks(keys.len(), places, results),
            tag,
        ),
        _ => encode_response(response, tag),
    }
}

/// What is passed on of a request that has been answered.
pub open spec fn forwards_of(
    command: Command,
    places: Seq<usize>,
    response: Response,
    node: Option<NodeView>,
    now: u128,
) -> Seq<ForwardView> {
    match command {
        Command::Keyed { key, operation } => change_forwards(
            node,
            key@,
            change_of(operation, response),
            now,
        ),
        Command::Handoff { key, operation, .. } => match handoff_change_of(operation) {
            Some(made) => join_forwards(node, key@, made, now),
            None => Seq::empty(),
        },
        Command::MultiSet { namespace, keys, values, ttl } => match response {
            Response::MultiAck(results) => multi_forwards(
                node,
                namespace@,
                keys@,
                values@,
                ttl,
                places,
                results@,
                results@.len(),
                now,
            ),
            _ => Seq::empty(),
        },
        Command::Clear(scope) => clear_forwards(node, scope, now),
        _ => Seq::empty(),
    }
}

/// The node once a request has been answered and passed on.
pub open spec fn after_request(
    command: Command,
    response: Response,
    node: Option<NodeView>,
    now: u128,
) -> Option<NodeView> {
    match command {
        Command::Keyed { operation, .. } => after_change(
            node,
            change_of(operation, response),
            now,
        ),
        Command::Handoff { operation, .. } => after_change(
            node,
            handoff_change_of(operation),
            now,
        ),
        Command::MultiSet { .. } => match response {
            Response::MultiAck(results) => if any_stored(results@, results@.len()) {
                swept_node(node, now)
            } else {
                node
            },
            _ => node,
        },
        Command::Clear(scope) => after_clear(node, scope, now),
        _ => node,
    }
}

/// Ends a request once its reply has been sent: says what is passed on, and has
/// a clear wait for a handoff that transfers. Nothing comes of a request whose
/// reply could not be sent, which `replied` says.
pub fn finish_command(
    command: &Command,
    places: &Vec<usize>,
    response: &Response,
    replied: bool,
    node: &mut Option<NodeContext>,
    now: u128,
) -> (forwards: Vec<Forward>)
    requires
        can_finish(*command, places@, *response),
    ensures
        if replied {
            &&& forward_views(forwards@) == forwards_of(
                *command,
                places@,
                *response,
                node_view(*old(node)),
                now,
            )
            &&& node_view(*final(node)) == after_request(
                *command,
                *response,
                node_view(*old(node)),
                now,
            )
        } else {
            forwards@.len() == 0 && node_view(*final(node)) == node_view(*old(node))
        },
{
    let mut forwards: Vec<Forward> = Vec::new();
    assert(forward_views(forwards@) =~= Seq::empty());
    if !replied {
        return forwards;
    }
    match command {
        Command::Keyed { key, operation } => {
            let change: Option<OwnedChange> = match operation {
                KeyOperation::Get => None,
                KeyOperation::Store { value, ttl } => Some(
                    OwnedChange::Store { value, ttl: *ttl },
                ),
                KeyOperation::Delete => Some(OwnedChange::Delete),
                KeyOperation::Incr { .. } => match response {
                    Response::Incremented(value, ttl) => Some(
                        OwnedChange::Store { value, ttl: *ttl },
                    ),
                    _ => None,
                },
                KeyOperation::CasStore { value, ttl, .. } => match response {
                    Response::Stored => Some(OwnedChange::Store { value, ttl: *ttl }),
                    _ => None,
                },
                KeyOperation::CasDelete { .. } => match response {
                    Response::Deleted => Some(OwnedChange::Delete),
                    _ => None,
                },
            };
            if let Some(made) = &change {
                let ghost start = node_view(*node);
                push_change(&mut forwards, node, key, made, now);
                assert(forward_views(forwards@) =~= change_forwards(
                    start,
                    key@,
                    Some(made.change()),
                    now,
                ));
            }
        },
        Command::Handoff { key, operation, .. } => {
            let change: Option<OwnedChange> = match operation {
                HandoffOperation::Store { value, ttl, if_absent } => {
                    if *if_absent {
                        None
                    } else {
                        Some(OwnedChange::Store { value, ttl: *ttl })
                    }
                },
                HandoffOperation::Delete => Some(OwnedChange::Delete),
            };
            if let Some(made) = &change {
                let ghost start = node_view(*node);
                push_join_forward(&mut forwards, node, key, made, now);
                assert(forward_views(forwards@) =~= join_forwards(
                    start,
                    key@,
                    made.change(),
                    now,
                ));
            }
        },
        Command::MultiSet { namespace, keys, values, ttl } => {
            if let Response::MultiAck(results) = response {
                push_multi_forwards(
                    &mut forwards,
                    node,
                    namespace,
                    keys,
                    values,
                    *ttl,
                    places,
                    results,
                    now,
                );
            }
        },
        Command::Clear(scope) => {
            if let Some(context) = node.as_mut() {
                match route_clear(context, scope, now) {
                    ClearRoute::Forward(target) => {
                        let forward = Forward {
                            target,
                            write: OwnedForwardedWrite::Clear(scope.clone()),
                        };
                        let ghost added = forward@;
                        forwards.push(forward);
                        assert(forward_views(forwards@) =~= seq![added]);
                    },
                    ClearRoute::Queued => {},
                    ClearRoute::Local => {},
                }
            }
        },
        _ => {},
    }
    forwards
}

/// Every key of a request for several gets one answer, at its own place: a key
/// of another node is refused, and one that the cache was asked for gets what
/// the cache said of it.
pub proof fn law_splicing_keeps_the_order(
    total: nat,
    places: Seq<usize>,
    results: Seq<MultiEntryView>,
    index: int,
)
    requires
        total <= usize::MAX,
        are_places(places, total),
        results.len() == places.len(),
        0 <= index < places.len(),
    ensures
        spliced(total, places, results).len() == total,
        spliced(total, places, results)[places[index] as int] == results[index],
        forall|place: int|
            0 <= place < total && !places.contains(place as usize) ==> #[trigger] spliced(
                total,
                places,
                results,
            )[place] is WrongNode,
{
    lemma_place(places, total, index);
}

/// What to do before more is read from a connection.
#[derive(Clone, Copy, Debug, PartialEq, Eq, Structural)]
pub enum ReadPlan {
    /// Close: the node shuts down and every request that came in whole is
    /// answered.
    Stop,
    /// Read, for at most `wait`; move what is left over into a smaller buffer
    /// first if `shrink` says so.
    Read { shrink: bool, wait: u128 },
}

/// What came of reading.
#[derive(Clone, Copy, Debug, PartialEq, Eq)]
pub enum ReadOutcome {
    /// Look for whole requests.
    Parse,
    /// The client is done.
    Closed,
    Fail(ConnectionError),
}

impl Connection {
    /// What to do before more is read.
    pub open spec fn read_plan(
        self,
        shutting_down: bool,
        capacity: usize,
        buffered: usize,
        now: u128,
    ) -> ReadPlan {
        if shutting_down {
            ReadPlan::Stop
        } else {
            ReadPlan::Read {
                shrink: capacity > REQUEST_BUFFER_SHRINK_THRESHOLD && buffered
                    <= REQUEST_BUFFER_SHRINK_THRESHOLD,
                wait: if self.deadline >= now {
                    (self.deadline - now) as u128
                } else {
                    0
                },
            }
        }
    }

    /// Plans a read of a connection on which no whole request is left. The time
    /// it may take ends at the deadline, however much has been read since.
    pub fn plan_read(
        &self,
        shutting_down: bool,
        capacity: usize,
        buffered: usize,
        now: u128,
    ) -> (plan: ReadPlan)
        ensures
            plan == self.read_plan(shutting_down, capacity, buffered, now),
    {
        if shutting_down {
            return ReadPlan::Stop;
        }
        ReadPlan::Read {
            shrink: capacity > REQUEST_BUFFER_SHRINK_THRESHOLD && buffered
                <= REQUEST_BUFFER_SHRINK_THRESHOLD,
            wait: self.deadline.saturating_sub(now),
        }
    }
}

/// A client that sends a request bit by bit gains no time: every read, however
/// much came before it, ends at the deadline that the last whole request set,
/// and after the deadline no read waits.
pub proof fn law_reads_end_at_the_deadline(
    connection: Connection,
    capacity: usize,
    buffered: usize,
    now: u128,
)
    ensures
        connection.read_plan(false, capacity, buffered, now) matches ReadPlan::Read { wait, .. }
            && (now <= connection.deadline ==> now + wait == connection.deadline) && (now
            >= connection.deadline ==> wait == 0),
{
}

/// While a key is handed over, what a client changes of it goes to the node that
/// takes it over: to one that joins, as long as its window is open, and to one
/// that takes over from a node that leaves.
pub proof fn law_changes_follow_a_key(node: NodeView, key: KeyView, change: Change, now: u128)
    ensures
        node.join_target(key, now) matches Some(target) ==> change_forwards(
            Some(node),
            key,
            Some(change),
            now,
        ).contains(ForwardView { target, write: join_write(key, change) }),
        node.leave_target(key) matches Some(target) ==> change_forwards(
            Some(node),
            key,
            Some(change),
            now,
        ).contains(ForwardView { target, write: leave_write(key, change) }),
{
    let all = change_forwards(Some(node), key, Some(change), now);
    let joining = join_forwards(Some(node), key, change, now);
    let leaving = leave_forwards(Some(node), key, change);
    assert(all == joining + leaving);
    if node.join_target(key, now) is Some {
        assert(all[0] == joining[0]);
    }
    if node.leave_target(key) is Some {
        assert(all[joining.len() as int] == leaving[0]);
    }
}

/// Judges a read after which `buffered` bytes are waiting; one that took too
/// long has read nothing.
pub fn after_read(bytes_read: Option<usize>, buffered: usize) -> (outcome: ReadOutcome)
    ensures
        match bytes_read {
            None => outcome matches ReadOutcome::Fail(error) && error.says(
                ErrorKind::TimedOut,
                "connection idle timeout"@,
            ),
            Some(count) => if count == 0 && buffered == 0 {
                outcome is Closed
            } else if count == 0 {
                outcome matches ReadOutcome::Fail(error) && error.says(
                    ErrorKind::UnexpectedEof,
                    "connection closed before request was complete"@,
                )
            } else if buffered > MAX_REQUEST_SIZE {
                outcome matches ReadOutcome::Fail(error) && error.says(
                    ErrorKind::InvalidData,
                    "request is too large"@,
                )
            } else {
                outcome is Parse
            },
        },
{
    match bytes_read {
        None => ReadOutcome::Fail(failure(ErrorKind::TimedOut, "connection idle timeout")),
        Some(count) => {
            if count == 0 {
                if buffered == 0 {
                    return ReadOutcome::Closed;
                }
                return ReadOutcome::Fail(
                    failure(
                        ErrorKind::UnexpectedEof,
                        "connection closed before request was complete",
                    ),
                );
            }
            if request_is_too_large(buffered) {
                return ReadOutcome::Fail(failure(ErrorKind::InvalidData, "request is too large"));
            }
            ReadOutcome::Parse
        },
    }
}

/// Every key of a read of several gets one answer, at its own place: what the
/// cache said of it if the cache was asked, in the order in which it was asked,
/// and at every other place that the key is another node's.
pub proof fn law_every_read_key_gets_its_answer(
    total: nat,
    places: Seq<usize>,
    results: Seq<MultiEntryView>,
)
    requires
        total <= usize::MAX,
        are_places(places, total),
        results.len() == places.len(),
    ensures
        spliced(total, places, results).len() == total,
        forall|i: int|
            0 <= i < places.len() ==> spliced(total, places, results)[#[trigger] places[i] as int]
                == results[i],
        forall|place: int|
            0 <= place < total && (forall|i: int|
                0 <= i < places.len() ==> #[trigger] places[i] != place)
                ==> #[trigger] spliced(total, places, results)[place] is WrongNode,
{
    let entries = spliced(total, places, results);
    assert forall|i: int| 0 <= i < places.len() implies entries[#[trigger] places[i] as int]
        == results[i] by {
        lemma_place(places, total, i);
    }
    assert forall|place: int|
        0 <= place < total && (forall|i: int|
            0 <= i < places.len() ==> #[trigger] places[i]
                != place) implies #[trigger] entries[place] is WrongNode by {
        if places.contains(place as usize) {
            let i = places.index_of(place as usize);
            assert(places[i] == place);
        }
    }
}

/// Every key of a write of several gets one answer, at its own place: what the
/// cache said of it if the cache was asked, in the order in which it was asked,
/// and at every other place that the key is another node's.
pub proof fn law_every_written_key_gets_its_answer(
    total: nat,
    places: Seq<usize>,
    results: Seq<MultiAckEntry>,
)
    requires
        total <= usize::MAX,
        are_places(places, total),
        results.len() == places.len(),
    ensures
        spliced_acks(total, places, results).len() == total,
        forall|i: int|
            0 <= i < places.len() ==> spliced_acks(total, places, results)[#[trigger] places[i] as int]
                == results[i],
        forall|place: int|
            0 <= place < total && (forall|i: int|
                0 <= i < places.len() ==> #[trigger] places[i] != place)
                ==> #[trigger] spliced_acks(total, places, results)[place] is WrongNode,
{
    let entries = spliced_acks(total, places, results);
    assert forall|i: int| 0 <= i < places.len() implies entries[#[trigger] places[i] as int]
        == results[i] by {
        lemma_place(places, total, i);
    }
    assert forall|place: int|
        0 <= place < total && (forall|i: int|
            0 <= i < places.len() ==> #[trigger] places[i]
                != place) implies #[trigger] entries[place] is WrongNode by {
        if places.contains(place as usize) {
            let i = places.index_of(place as usize);
            assert(places[i] == place);
        }
    }
}

/// The reply to a request for several keys has an answer for each of them: at
/// the places that the cache was asked for what it said, and elsewhere that the
/// key is another node's.
pub proof fn law_reply_to_several_keys_answers_each(
    command: Command,
    tag: Option<u32>,
    places: Seq<usize>,
    response: Response,
)
    requires
        can_finish(command, places, response),
    ensures
        command matches Command::MultiGet { keys, .. } ==> exists|entries: Seq<MultiEntryView>|
            reply_of(command, tag, places, response) == #[trigger] multi_reply(entries, tag)
                && entries.len() == keys.len() && (forall|i: int|
                0 <= i < places.len() ==> entries[#[trigger] places[i] as int]
                    == response->Multi_0@[i]@) && (forall|place: int|
                0 <= place < keys.len() && (forall|i: int|
                    0 <= i < places.len() ==> #[trigger] places[i] != place)
                    ==> #[trigger] entries[place] is WrongNode),
        command matches Command::MultiSet { keys, .. } ==> exists|entries: Seq<MultiAckEntry>|
            reply_of(command, tag, places, response) == #[trigger] ack_reply(entries, tag)
                && entries.len() == keys.len() && (forall|i: int|
                0 <= i < places.len() ==> entries[#[trigger] places[i] as int]
                    == response->MultiAck_0@[i]) && (forall|place: int|
                0 <= place < keys.len() && (forall|i: int|
                    0 <= i < places.len() ==> #[trigger] places[i] != place)
                    ==> #[trigger] entries[place] is WrongNode),
        !(command is MultiGet) && !(command is MultiSet) ==> reply_of(
            command,
            tag,
            places,
            response,
        ) == encoded(response, tag),
{
    match command {
        Command::MultiGet { keys, .. } => {
            let results = multi_views(response->Multi_0@);
            assert(keys.len() <= usize::MAX);
            law_every_read_key_gets_its_answer(keys@.len(), places, results);
            let entries = spliced(keys@.len(), places, results);
            assert(reply_of(command, tag, places, response) == multi_reply(entries, tag));
            assert forall|i: int| 0 <= i < places.len() implies entries[#[trigger] places[i] as int]
                == response->Multi_0@[i]@ by {
                assert(results[i] == response->Multi_0@[i]@);
            }
        },
        Command::MultiSet { keys, .. } => {
            let results = response->MultiAck_0@;
            law_every_written_key_gets_its_answer(keys@.len(), places, results);
            let entries = spliced_acks(keys@.len(), places, results);
            assert(reply_of(command, tag, places, response) == ack_reply(entries, tag));
        },
        _ => {},
    }
}

/// Whether just these writes are passed on for a key: one to the joining node if
/// the key moves to it, and one to the node that takes over from this one if it
/// leaves.
pub open spec fn reaches_both(
    forwards: Seq<ForwardView>,
    node: NodeView,
    key: KeyView,
    to_joiner: OwnedWriteView,
    to_heir: OwnedWriteView,
    now: u128,
) -> bool {
    &&& node.join_target(key, now) matches Some(target) ==> forwards.contains(
        ForwardView { target, write: to_joiner },
    )
    &&& node.leave_target(key) matches Some(target) ==> forwards.contains(
        ForwardView { target, write: to_heir },
    )
    &&& forall|i: int|
        0 <= i < forwards.len() ==> (node.join_target(key, now) == Some(
            (#[trigger] forwards[i]).target,
        ) && forwards[i].write == to_joiner) || (node.leave_target(key) == Some(forwards[i].target)
            && forwards[i].write == to_heir)
    &&& forwards.len() == (if node.join_target(key, now) is Some {
        1int
    } else {
        0
    }) + (if node.leave_target(key) is Some {
        1int
    } else {
        0
    })
}

proof fn lemma_change_reaches_both(node: NodeView, key: KeyView, change: Change, now: u128)
    ensures
        reaches_both(
            change_forwards(Some(node), key, Some(change), now),
            node,
            key,
            join_write(key, change),
            leave_write(key, change),
            now,
        ),
{
    law_changes_follow_a_key(node, key, change, now);
}

/// A client's store is passed on whole, whatever the cache answered: the write
/// to a joining node, and that to the node that takes over from a leaving one,
/// carry the key, the value and the time to live of the request.
pub proof fn law_store_is_passed_on_as_made(
    key: Key,
    value: Vec<u8>,
    ttl: Option<u128>,
    places: Seq<usize>,
    response: Response,
    node: NodeView,
    now: u128,
)
    ensures
        reaches_both(
            forwards_of(
                Command::Keyed { key, operation: KeyOperation::Store { value, ttl } },
                places,
                response,
                Some(node),
                now,
            ),
            node,
            key@,
            OwnedWriteView::Store { key: key@, value: value@, ttl },
            OwnedWriteView::HandoffSet { key: key@, value: value@, ttl },
            now,
        ),
        change_of(KeyOperation::Store { value, ttl }, response) == Some(
            Change::Store { value: value@, ttl },
        ),
{
    lemma_change_reaches_both(node, key@, Change::Store { value: value@, ttl }, now);
}

/// A client's deletion is passed on, whatever the cache answered.
pub proof fn law_deletion_is_passed_on(
    key: Key,
    places: Seq<usize>,
    response: Response,
    node: NodeView,
    now: u128,
)
    ensures
        reaches_both(
            forwards_of(
                Command::Keyed { key, operation: KeyOperation::Delete },
                places,
                response,
                Some(node),
                now,
            ),
            node,
            key@,
            OwnedWriteView::Delete { key: key@ },
            OwnedWriteView::HandoffDelete { key: key@ },
            now,
        ),
{
    lemma_change_reaches_both(node, key@, Change::Delete, now);
}

/// An increment that led to a value is passed on as a store of that value, with
/// what is left of its time to live; one that did not is not passed on.
pub proof fn law_increment_is_passed_on_as_its_result(
    key: Key,
    delta: i64,
    places: Seq<usize>,
    response: Response,
    node: NodeView,
    now: u128,
)
    ensures
        ({
            let forwards = forwards_of(
                Command::Keyed { key, operation: KeyOperation::Incr { delta } },
                places,
                response,
                Some(node),
                now,
            );
            match response {
                Response::Incremented(result, ttl) => reaches_both(
                    forwards,
                    node,
                    key@,
                    OwnedWriteView::Store { key: key@, value: result@, ttl },
                    OwnedWriteView::HandoffSet { key: key@, value: result@, ttl },
                    now,
                ),
                _ => forwards.len() == 0,
            }
        }),
{
    if let Response::Incremented(result, ttl) = response {
        lemma_change_reaches_both(node, key@, Change::Store { value: result@, ttl }, now);
    }
}

/// A conditional store that applied is passed on with the key, the value and the
/// time to live of the request, and a conditional deletion that applied as a
/// deletion; neither is passed on when it did not apply.
pub proof fn law_conditional_write_is_passed_on_if_it_applied(
    key: Key,
    condition: CasCondition,
    value: Vec<u8>,
    ttl: Option<u128>,
    expected_digest: [u8; 16],
    places: Seq<usize>,
    response: Response,
    node: NodeView,
    now: u128,
)
    ensures
        ({
            let forwards = forwards_of(
                Command::Keyed {
                    key,
                    operation: KeyOperation::CasStore { condition, value, ttl },
                },
                places,
                response,
                Some(node),
                now,
            );
            if response is Stored {
                reaches_both(
                    forwards,
                    node,
                    key@,
                    OwnedWriteView::Store { key: key@, value: value@, ttl },
                    OwnedWriteView::HandoffSet { key: key@, value: value@, ttl },
                    now,
                )
            } else {
                forwards.len() == 0
            }
        }),
        ({
            let forwards = forwards_of(
                Command::Keyed { key, operation: KeyOperation::CasDelete { expected_digest } },
                places,
                response,
                Some(node),
                now,
            );
            if response is Deleted {
                reaches_both(
                    forwards,
                    node,
                    key@,
                    OwnedWriteView::Delete { key: key@ },
                    OwnedWriteView::HandoffDelete { key: key@ },
                    now,
                )
            } else {
                forwards.len() == 0
            }
        }),
{
    lemma_change_reaches_both(node, key@, Change::Store { value: value@, ttl }, now);
    lemma_change_reaches_both(node, key@, Change::Delete, now);
}

/// A read passes nothing on and leaves the node as it is; and outside a cluster
/// nothing is passed on at all.
pub proof fn law_reads_pass_nothing_on(
    key: Key,
    namespace: Vec<u8>,
    keys: Vec<Vec<u8>>,
    places: Seq<usize>,
    response: Response,
    node: Option<NodeView>,
    now: u128,
)
    ensures
        ({
            let read = Command::Keyed { key, operation: KeyOperation::Get };
            let several = Command::MultiGet { namespace, keys };
            &&& forwards_of(read, places, response, node, now).len() == 0
            &&& after_request(read, response, node, now) == node
            &&& forwards_of(several, places, response, node, now).len() == 0
            &&& after_request(several, response, node, now) == node
        }),
{
}

/// Outside a cluster nothing is ever passed on.
pub proof fn law_lone_node_passes_nothing_on(
    command: Command,
    places: Seq<usize>,
    response: Response,
    now: u128,
)
    ensures
        forwards_of(command, places, response, None, now).len() == 0,
        after_request(command, response, None, now) is None,
{
    if let Command::MultiSet { namespace, keys, values, ttl } = command {
        if let Response::MultiAck(results) = response {
            lemma_lone_multi_forwards(
                namespace@,
                keys@,
                values@,
                ttl,
                places,
                results@,
                results@.len(),
                now,
            );
        }
    }
}

proof fn lemma_lone_multi_forwards(
    namespace: Seq<u8>,
    names: Seq<Vec<u8>>,
    values: Seq<Vec<u8>>,
    ttl: Option<u128>,
    places: Seq<usize>,
    results: Seq<MultiAckEntry>,
    count: nat,
    now: u128,
)
    ensures
        multi_forwards(None, namespace, names, values, ttl, places, results, count, now).len() == 0,
    decreases count,
{
    if count > 0 {
        lemma_lone_multi_forwards(
            namespace,
            names,
            values,
            ttl,
            places,
            results,
            (count - 1) as nat,
            now,
        );
    }
}

/// A peer's write is passed on to a joining node that comes to own the key, and
/// nowhere else: a store with its key, value and time to live unless it gave way
/// to what was there, and a deletion in any case.
pub proof fn law_peer_write_goes_to_the_joining_node_only(
    key: Key,
    value: Vec<u8>,
    ttl: Option<u128>,
    token: String,
    places: Seq<usize>,
    response: Response,
    node: NodeView,
    now: u128,
)
    ensures
        ({
            let stored = forwards_of(
                Command::Handoff {
                    key,
                    operation: HandoffOperation::Store { value, ttl, if_absent: false },
                    token,
                },
                places,
                response,
                Some(node),
                now,
            );
            let given_way = forwards_of(
                Command::Handoff {
                    key,
                    operation: HandoffOperation::Store { value, ttl, if_absent: true },
                    token,
                },
                places,
                response,
                Some(node),
                now,
            );
            let deleted = forwards_of(
                Command::Handoff { key, operation: HandoffOperation::Delete, token },
                places,
                response,
                Some(node),
                now,
            );
            &&& given_way.len() == 0
            &&& match node.join_target(key@, now) {
                Some(target) => {
                    &&& stored.len() == 1 && stored[0].target == target && stored[0].write == (
                    OwnedWriteView::Store { key: key@, value: value@, ttl })
                    &&& deleted.len() == 1 && deleted[0].target == target && deleted[0].write == (
                    OwnedWriteView::Delete { key: key@ })
                },
                None => stored.len() == 0 && deleted.len() == 0,
            }
        }),
{
}

/// Of a write of several keys, each one that the cache stored is passed on under
/// its own name in the namespace of the request, with its own value and the time
/// to live of the request.
pub proof fn law_each_stored_key_is_passed_on(
    namespace: Vec<u8>,
    keys: Vec<Vec<u8>>,
    values: Vec<Vec<u8>>,
    ttl: Option<u128>,
    places: Seq<usize>,
    results: Vec<MultiAckEntry>,
    node: NodeView,
    now: u128,
    index: int,
)
    requires
        are_places(places, keys@.len()),
        keys.len() == values.len(),
        results.len() == places.len(),
        0 <= index < places.len(),
        results@[index] is Stored,
    ensures
        ({
            let forwards = forwards_of(
                Command::MultiSet { namespace, keys, values, ttl },
                places,
                Response::MultiAck(results),
                Some(node),
                now,
            );
            let place = places[index] as int;
            let key = KeyView { namespace: namespace@, name: keys@[place]@ };
            &&& node.join_target(key, now) matches Some(target) ==> forwards.contains(
                ForwardView {
                    target,
                    write: OwnedWriteView::Store { key, value: values@[place]@, ttl },
                },
            )
            &&& node.leave_target(key) matches Some(target) ==> forwards.contains(
                ForwardView {
                    target,
                    write: OwnedWriteView::HandoffSet { key, value: values@[place]@, ttl },
                },
            )
        }),
{
    lemma_multi_forwards_hold(
        namespace@,
        keys@,
        values@,
        ttl,
        places,
        results@,
        results@.len(),
        node,
        now,
        index,
    );
}

/// Of a write of several keys nothing is passed on but what the cache stored,
/// each under its own name, with its own value and the time to live of the
/// request, to where that key goes.
pub proof fn law_only_stored_keys_are_passed_on(
    namespace: Vec<u8>,
    keys: Vec<Vec<u8>>,
    values: Vec<Vec<u8>>,
    ttl: Option<u128>,
    places: Seq<usize>,
    results: Vec<MultiAckEntry>,
    node: NodeView,
    now: u128,
    place: int,
)
    requires
        results.len() == places.len(),
        0 <= place < forwards_of(
            Command::MultiSet { namespace, keys, values, ttl },
            places,
            Response::MultiAck(results),
            Some(node),
            now,
        ).len(),
    ensures
        exists|i: int|
            0 <= i < results@.len() && #[trigger] results@[i] is Stored && ({
                let forward = forwards_of(
                    Command::MultiSet { namespace, keys, values, ttl },
                    places,
                    Response::MultiAck(results),
                    Some(node),
                    now,
                )[place];
                let key = KeyView { namespace: namespace@, name: keys@[places[i] as int]@ };
                let value = values@[places[i] as int]@;
                ||| node.join_target(key, now) == Some(forward.target) && forward.write == (
                OwnedWriteView::Store { key, value, ttl })
                ||| node.leave_target(key) == Some(forward.target) && forward.write == (
                OwnedWriteView::HandoffSet { key, value, ttl })
            }),
{
    lemma_multi_forwards_come_from(
        namespace@,
        keys@,
        values@,
        ttl,
        places,
        results@,
        results@.len(),
        node,
        now,
        place,
    );
}

proof fn lemma_multi_forwards_hold(
    namespace: Seq<u8>,
    names: Seq<Vec<u8>>,
    values: Seq<Vec<u8>>,
    ttl: Option<u128>,
    places: Seq<usize>,
    results: Seq<MultiAckEntry>,
    count: nat,
    node: NodeView,
    now: u128,
    index: int,
)
    requires
        0 <= index < count,
        results[index] is Stored,
    ensures
        ({
            let forwards = multi_forwards(
                Some(node),
                namespace,
                names,
                values,
                ttl,
                places,
                results,
                count,
                now,
            );
            let place = places[index] as int;
            let key = KeyView { namespace, name: names[place]@ };
            &&& node.join_target(key, now) matches Some(target) ==> forwards.contains(
                ForwardView {
                    target,
                    write: OwnedWriteView::Store { key, value: values[place]@, ttl },
                },
            )
            &&& node.leave_target(key) matches Some(target) ==> forwards.contains(
                ForwardView {
                    target,
                    write: OwnedWriteView::HandoffSet { key, value: values[place]@, ttl },
                },
            )
        }),
    decreases count,
{
    let rest = multi_forwards(
        Some(node),
        namespace,
        names,
        values,
        ttl,
        places,
        results,
        (count - 1) as nat,
        now,
    );
    let all = multi_forwards(
        Some(node),
        namespace,
        names,
        values,
        ttl,
        places,
        results,
        count,
        now,
    );
    let place = places[index] as int;
    let key = KeyView { namespace, name: names[place]@ };
    let stored = OwnedWriteView::Store { key, value: values[place]@, ttl };
    let handed = OwnedWriteView::HandoffSet { key, value: values[place]@, ttl };
    if index == count - 1 {
        let change = Change::Store { value: values[place]@, ttl };
        let added = change_forwards(Some(node), key, Some(change), now);
        assert(all == rest + added);
        law_changes_follow_a_key(node, key, change, now);
        if let Some(target) = node.join_target(key, now) {
            let i = added.index_of(ForwardView { target, write: stored });
            assert(all[rest.len() + i] == added[i]);
        }
        if let Some(target) = node.leave_target(key) {
            let i = added.index_of(ForwardView { target, write: handed });
            assert(all[rest.len() + i] == added[i]);
        }
    } else {
        lemma_multi_forwards_hold(
            namespace,
            names,
            values,
            ttl,
            places,
            results,
            (count - 1) as nat,
            node,
            now,
            index,
        );
        if let Some(target) = node.join_target(key, now) {
            let i = rest.index_of(ForwardView { target, write: stored });
            assert(all[i] == rest[i]);
        }
        if let Some(target) = node.leave_target(key) {
            let i = rest.index_of(ForwardView { target, write: handed });
            assert(all[i] == rest[i]);
        }
    }
}

proof fn lemma_multi_forwards_come_from(
    namespace: Seq<u8>,
    names: Seq<Vec<u8>>,
    values: Seq<Vec<u8>>,
    ttl: Option<u128>,
    places: Seq<usize>,
    results: Seq<MultiAckEntry>,
    count: nat,
    node: NodeView,
    now: u128,
    place: int,
)
    requires
        0 <= place < multi_forwards(
            Some(node),
            namespace,
            names,
            values,
            ttl,
            places,
            results,
            count,
            now,
        ).len(),
    ensures
        exists|i: int|
            0 <= i < count && #[trigger] results[i] is Stored && ({
                let forward = multi_forwards(
                    Some(node),
                    namespace,
                    names,
                    values,
                    ttl,
                    places,
                    results,
                    count,
                    now,
                )[place];
                let key = KeyView { namespace, name: names[places[i] as int]@ };
                let value = values[places[i] as int]@;
                ||| node.join_target(key, now) == Some(forward.target) && forward.write == (
                OwnedWriteView::Store { key, value, ttl })
                ||| node.leave_target(key) == Some(forward.target) && forward.write == (
                OwnedWriteView::HandoffSet { key, value, ttl })
            }),
    decreases count,
{
    let rest = multi_forwards(
        Some(node),
        namespace,
        names,
        values,
        ttl,
        places,
        results,
        (count - 1) as nat,
        now,
    );
    if place < rest.len() {
        lemma_multi_forwards_come_from(
            namespace,
            names,
            values,
            ttl,
            places,
            results,
            (count - 1) as nat,
            node,
            now,
            place,
        );
    } else {
        let last = count - 1;
        let key = named(namespace, names, places[last] as int);
        let change = Change::Store { value: values[places[last] as int]@, ttl };
        lemma_change_reaches_both(node, key, change, now);
        assert(results[last] is Stored);
    }
}

/// A clear follows a handoff: while it transfers, the clear waits behind those
/// that came before it and is not passed on; once it is done, the clear goes to
/// the joining node, with its scope, as long as the window is open; after that,
/// and without a handoff, it goes nowhere.
pub proof fn law_clear_follows_the_handoff(
    scope: ClearScope,
    places: Seq<usize>,
    response: Response,
    node: NodeView,
    now: u128,
)
    ensures
        ({
            let forwards = forwards_of(Command::Clear(scope), places, response, Some(node), now);
            let after = after_request(Command::Clear(scope), response, Some(node), now);
            &&& after matches Some(left) && left.name == node.name && left.token == node.token
                && left.known == node.known && left.leaving == node.leaving
            &&& node.slot is None ==> forwards.len() == 0 && after == Some(node)
            &&& node.slot matches Some(slot) ==> match slot.completed_at {
                None => {
                    &&& forwards.len() == 0
                    &&& after matches Some(left) && left.slot matches Some(waiting)
                        && waiting.pending_clears == slot.pending_clears.push(scope@)
                        && waiting.joining_name == slot.joining_name && waiting.completed_at is None
                        && waiting.marked_keys == slot.marked_keys && waiting.after_ring
                        == slot.after_ring && waiting.acked_entries == slot.acked_entries
                },
                Some(at) => if slot.forwarding_grace > 0 && now < at + slot.forwarding_grace {
                    &&& forwards.len() == 1
                    &&& forwards[0].write == (OwnedWriteView::Clear { scope: scope@ })
                    &&& forwards[0].target.addr == slot.joining_addr
                    &&& forwards[0].target.token == slot.joining_token
                    &&& after == Some(node)
                } else {
                    forwards.len() == 0
                },
            }
        }),
{
}

/// Answering a request changes nothing of a node but its slot, and of that only
/// what is over, or the clears that wait.
pub proof fn law_answering_changes_only_the_slot(
    command: Command,
    response: Response,
    node: NodeView,
    now: u128,
)
    ensures
        after_request(command, response, Some(node), now) matches Some(after) && after.name
            == node.name && after.token == node.token && after.known == node.known && after.leaving
            == node.leaving && (!(command is Clear) ==> after.slot == node.slot || after.slot
            == live_slot(node.slot, now)),
{
}

/// A request for one key is run just when the key is not another node's; else it
/// is answered so, with its tag, and nothing of it is run.
pub proof fn law_request_is_run_or_turned_away(
    key: Key,
    operation: KeyOperation,
    tag: Option<u32>,
    before: NodeView,
    after: Option<NodeView>,
    begun: Begin,
    ring_id: u64,
    now: u128,
)
    requires
        request_begins(
            Command::Keyed { key, operation },
            tag,
            Some(before),
            after,
            begun,
            ring_id,
            now,
        ),
    ensures
        begun is Run <==> !before.turns_away(key@, now),
        before.turns_away(key@, now) ==> begun.replies(encoded(Response::WrongNode, tag)),
        before.known is None ==> begun is Run,
        before.known matches Some(known) ==> owns(
            known.ring.nodes,
            key@,
            before.name,
            known.replication,
        ) ==> begun is Run,
        before.known matches Some(known) ==> before.slot is None && !owns(
            known.ring.nodes,
            key@,
            before.name,
            known.replication,
        ) ==> begun.replies(encoded(Response::WrongNode, tag)),
        after matches Some(left) && left.name == before.name && left.token == before.token
            && left.known == before.known && left.leaving == before.leaving && (left.slot
            == before.slot || left.slot == live_slot(before.slot, now)),
{
}

/// Whether these are the places, in order, of just the keys that are not another
/// node's.
pub open spec fn are_the_served(
    places: Seq<usize>,
    node: Option<NodeView>,
    namespace: Seq<u8>,
    names: Seq<Vec<u8>>,
    now: u128,
) -> bool {
    &&& forall|i: int, j: int|
        0 <= i < j < places.len() ==> #[trigger] places[i] < #[trigger] places[j]
    &&& forall|i: int| 0 <= i < places.len() ==> #[trigger] places[i] < names.len()
    &&& forall|i: int|
        0 <= i < names.len() ==> (#[trigger] places.contains(i as usize) <==> !(node matches Some(
            context,
        ) && context.turns_away(KeyView { namespace, name: names[i]@ }, now)))
}

proof fn lemma_owned_places_are_the_served(
    node: Option<NodeView>,
    namespace: Seq<u8>,
    names: Seq<Vec<u8>>,
    now: u128,
)
    requires
        names.len() <= usize::MAX,
    ensures
        are_the_served(
            owned_places(node, namespace, names, names.len(), now),
            node,
            namespace,
            names,
            now,
        ),
{
    let found = owned_places(node, namespace, names, names.len(), now);
    law_only_served_keys_reach_the_cache(node, namespace, names, names.len(), now);
    assert forall|i: int| 0 <= i < names.len() implies (#[trigger] found.contains(i as usize)
        <==> !(node matches Some(context) && context.turns_away(
        KeyView { namespace, name: names[i]@ },
        now,
    ))) by {
        assert(named(namespace, names, i) == (KeyView { namespace, name: names[i]@ }));
    }
}

/// A read of several keys is run for just those that are not another node's, in
/// their order; where there are none it is answered at once, and every answer is
/// that the key is another node's.
pub proof fn law_read_of_several_is_run_or_turned_away(
    namespace: Vec<u8>,
    keys: Vec<Vec<u8>>,
    tag: Option<u32>,
    before: Option<NodeView>,
    after: Option<NodeView>,
    begun: Begin,
    ring_id: u64,
    now: u128,
)
    requires
        request_begins(
            Command::MultiGet { namespace, keys },
            tag,
            before,
            after,
            begun,
            ring_id,
            now,
        ),
    ensures
        match begun {
            Begin::RunOwned(places) => places@.len() > 0 && are_the_served(
                places@,
                before,
                namespace@,
                keys@,
                now,
            ),
            _ => are_the_served(Seq::empty(), before, namespace@, keys@, now) && begun.replies(
                multi_reply(Seq::new(keys@.len(), |i: int| MultiEntryView::WrongNode), tag),
            ),
        },
{
    let found = owned_places(before, namespace@, keys@, keys@.len(), now);
    assert(keys.len() <= usize::MAX);
    lemma_owned_places_are_the_served(before, namespace@, keys@, now);
    if found.len() == 0 {
        assert(found =~= Seq::empty());
        assert(spliced(keys@.len(), found, Seq::empty()) =~= Seq::new(
            keys@.len(),
            |i: int| MultiEntryView::WrongNode,
        ));
    }
}

/// A write of several keys is run for just those that are not another node's, in
/// their order; where there are none it is answered at once, and every answer is
/// that the key is another node's.
pub proof fn law_write_of_several_is_run_or_turned_away(
    namespace: Vec<u8>,
    keys: Vec<Vec<u8>>,
    values: Vec<Vec<u8>>,
    ttl: Option<u128>,
    tag: Option<u32>,
    before: Option<NodeView>,
    after: Option<NodeView>,
    begun: Begin,
    ring_id: u64,
    now: u128,
)
    requires
        request_begins(
            Command::MultiSet { namespace, keys, values, ttl },
            tag,
            before,
            after,
            begun,
            ring_id,
            now,
        ),
    ensures
        match begun {
            Begin::RunOwned(places) => places@.len() > 0 && are_the_served(
                places@,
                before,
                namespace@,
                keys@,
                now,
            ),
            _ => are_the_served(Seq::empty(), before, namespace@, keys@, now) && begun.replies(
                ack_reply(Seq::new(keys@.len(), |i: int| MultiAckEntry::WrongNode), tag),
            ),
        },
{
    let found = owned_places(before, namespace@, keys@, keys@.len(), now);
    assert(keys.len() <= usize::MAX);
    lemma_owned_places_are_the_served(before, namespace@, keys@, now);
    if found.len() == 0 {
        assert(found =~= Seq::empty());
        assert(spliced_acks(keys@.len(), found, Seq::empty()) =~= Seq::new(
            keys@.len(),
            |i: int| MultiAckEntry::WrongNode,
        ));
    }
}

/// What comes without the node's own token goes no further: a handoff, the end
/// of one, and a peer's write are neither run nor do they change the node. A
/// node that leaves takes on no handoff.
pub proof fn law_nothing_goes_on_without_the_token(
    command: Command,
    tag: Option<u32>,
    before: NodeView,
    after: Option<NodeView>,
    begun: Begin,
    ring_id: u64,
    now: u128,
)
    requires
        request_begins(command, tag, Some(before), after, begun, ring_id, now),
        (command matches Command::Migrate(request) && (request.token@ != before.token
            || before.leaving is Some)) || (command matches Command::CancelMigration { token, .. }
            && token@ != before.token) || (command matches Command::Handoff { token, .. } && token@
            != before.token),
    ensures
        !begun.goes_on(),
        after == Some(before),
        command is CancelMigration || command is Handoff ==> begun is Close,
{
}

/// With the node's own token a peer's write is run, whether or not the node owns
/// the key, and a handoff is ended.
pub proof fn law_peers_are_served_with_the_token(
    command: Command,
    tag: Option<u32>,
    before: NodeView,
    after: Option<NodeView>,
    begun: Begin,
    ring_id: u64,
    now: u128,
)
    requires
        request_begins(command, tag, Some(before), after, begun, ring_id, now),
    ensures
        (command matches Command::Handoff { token, .. } && token@ == before.token) ==> begun is Run
            && after == Some(before),
        (command matches Command::CancelMigration { token, .. } && token@ == before.token)
            ==> begun is Restore && begun->Restore_reply@ == seq![65u8, 10u8],
{
    if command is CancelMigration && begun is Restore {
        assert(begun->Restore_reply@ =~= seq![65u8, 10u8]);
    }
}

/// A handoff that begins holds the slot for the node that was named, with its
/// address and its token and under the replication factor of the request, and
/// goes by the roster of the request: before, its nodes and this one; after,
/// the joining node as well. The node stays who it is.
pub proof fn law_handoff_goes_by_its_request(
    request: MigrateRequest,
    tag: Option<u32>,
    before: NodeView,
    after: Option<NodeView>,
    begun: Begin,
    ring_id: u64,
    now: u128,
)
    requires
        request_begins(
            Command::Migrate(request),
            tag,
            Some(before),
            after,
            begun,
            ring_id,
            now,
        ),
        begun is Handoff,
    ensures
        request.token@ == before.token,
        before.leaving is None,
        after matches Some(left) && left.name == before.name && left.token == before.token
            && left.leaving is None && (left.slot matches Some(slot) && slot.joining_name
            == request.joining_name@ && slot.joining_addr == request.joining_addr@
            && slot.joining_token == request.joining_token@ && slot.replication
            == request.replication && slot.after_ring.id == ring_id && slot.completed_at is None
            && !slot.confirmed && slot.acked_entries is None && (forall|name: Seq<char>| #[trigger]
            slot.after_ring.nodes.contains(name) <==> name == request.joining_name@ || name
                == before.name || exists|i: int|
                0 <= i < request.joined@.len() && (#[trigger] request.joined@[i]).0@ == name)),
        before.slot matches Some(slot) ==> slot.joining_name != request.joining_name@
            || slot.confirmed,
        before.slot matches Some(slot) ==> slot.completed_at is Some,
{
    let roster = roster_names(request.joined@);
    assert forall|name: Seq<char>| #[trigger] roster.contains(name) <==> exists|i: int|
        0 <= i < request.joined@.len() && (#[trigger] request.joined@[i]).0@ == name by {
        if roster.contains(name) {
            let i = roster.index_of(name);
            assert(request.joined@[i].0@ == name);
        }
        if exists|i: int| 0 <= i < request.joined@.len() && (#[trigger] request.joined@[i]).0@
            == name {
            let i = choose|i: int|
                0 <= i < request.joined@.len() && (#[trigger] request.joined@[i]).0@ == name;
            assert(roster[i] == name);
        }
    }
}

/// A connection is let in by the node's own secret and by no other; a node that
/// has none lets everything in. A connection that has shown the secret stays
/// let in.
pub proof fn law_only_the_secret_authenticates(
    auth_secret: Option<Vec<u8>>,
    command: Command,
    before: Connection,
    after: Connection,
    begun: Begin,
)
    requires
        guards(before, command, auth_secret, after, begun),
    ensures
        before.authenticated ==> after.authenticated,
        !before.authenticated ==> !begun.goes_on(),
        !before.authenticated && after.authenticated ==> command is Auth,
        auth_secret matches Some(expected) ==> !before.authenticated && after.authenticated ==> (
        command matches Command::Auth { secret, .. } && secret@ == expected@),
        (command matches Command::Auth { secret, .. } && (auth_secret matches Some(expected)
            ==> secret@ == expected@)) ==> after.authenticated,
{
}

/// The number of entries that a handoff is acknowledged with is that of the keys
/// that move; where the cache could not be asked it is none.
pub proof fn law_acknowledged_entries_are_the_moving_keys(
    keys: Vec<Key>,
    before: Seq<Seq<char>>,
    after: Seq<Seq<char>>,
    self_name: Seq<char>,
    joining_name: Seq<char>,
    replication: nat,
)
    ensures
        entries_owed(None, before, after, self_name, joining_name, replication) == 0,
        entries_owed(Some(keys), before, after, self_name, joining_name, replication)
            == moving_keys(
            key_views(keys@),
            before,
            after,
            self_name,
            joining_name,
            replication,
            keys@.len(),
        ),
{
    let views = key_views(keys@);
    lemma_moving_keys(views, before, after, self_name, joining_name, replication, views.len());
    assert(views.take(views.len() as int) =~= views);
}

/// How many of the first `count` keys this node owns before a join and the
/// joining node after it.
pub open spec fn moving_keys(
    keys: Seq<KeyView>,
    before: Seq<Seq<char>>,
    after: Seq<Seq<char>>,
    self_name: Seq<char>,
    joining_name: Seq<char>,
    replication: nat,
    count: nat,
) -> nat
    decreases count,
{
    if count == 0 {
        0
    } else {
        moving_keys(
            keys,
            before,
            after,
            self_name,
            joining_name,
            replication,
            (count - 1) as nat,
        ) + if owns(before, keys[count - 1], self_name, replication) && owns(
            after,
            keys[count - 1],
            joining_name,
            replication,
        ) {
            1nat
        } else {
            0
        }
    }
}

proof fn lemma_moving_keys(
    keys: Seq<KeyView>,
    before: Seq<Seq<char>>,
    after: Seq<Seq<char>>,
    self_name: Seq<char>,
    joining_name: Seq<char>,
    replication: nat,
    count: nat,
)
    requires
        count <= keys.len(),
    ensures
        owed_keys(
            keys.take(count as int),
            before,
            after,
            self_name,
            joining_name,
            replication,
        ).len() == moving_keys(
            keys,
            before,
            after,
            self_name,
            joining_name,
            replication,
            count,
        ),
    decreases count,
{
    if count == 0 {
        law_owed_keys_are_those_that_move(
            keys,
            before,
            after,
            self_name,
            joining_name,
            replication,
            arbitrary(),
        );
        assert(keys.take(0) =~= Seq::empty());
    } else {
        lemma_moving_keys(
            keys,
            before,
            after,
            self_name,
            joining_name,
            replication,
            (count - 1) as nat,
        );
        let rest = keys.take(count - 1);
        law_owed_keys_are_those_that_move(
            rest,
            before,
            after,
            self_name,
            joining_name,
            replication,
            keys[count - 1],
        );
        assert(keys.take(count as int) =~= rest.push(keys[count - 1]));
    }
}

/// A read is planned only while the node serves; the buffer is given back only
/// if it has grown past the threshold and what it holds fits below it.
pub proof fn law_buffer_is_given_back_when_it_is_mostly_empty(
    connection: Connection,
    capacity: usize,
    buffered: usize,
    now: u128,
)
    ensures
        connection.read_plan(true, capacity, buffered, now) is Stop,
        connection.read_plan(false, capacity, buffered, now) matches ReadPlan::Read { shrink, .. }
            && (shrink <==> capacity > 65_536 && buffered <= 65_536),
{
}

/// A deadline lies as far ahead as the wait, or at the end of time.
pub proof fn law_later_is_not_before(now: u128, wait: u128)
    ensures
        later(now, wait) >= now,
        later(now, wait) < u128::MAX ==> later(now, wait) == now + wait,
        later(now, wait) == u128::MAX ==> now + wait >= u128::MAX,
{
}

/// The beginning of a request is what it says: one that replies sends these
/// bytes and goes no further; one that closes gives this error, and sends this
/// reply or none.
pub proof fn law_beginnings_are_what_they_say(
    begun: Begin,
    bytes: Seq<u8>,
    reply: Option<Seq<u8>>,
    kind: ErrorKind,
    text: Seq<char>,
)
    ensures
        begun.replies(bytes) ==> !begun.goes_on() && (begun matches Begin::Reply(sent) && sent@
            == bytes),
        begun.closes(reply, kind, text) ==> !begun.goes_on() && (begun matches Begin::Close {
            reply: sent,
            error,
        } && error.kind == kind && error.text@ == text && (sent is Some <==> reply is Some) && (
        sent matches Some(last) ==> reply == Some(last@))),
        begun is Run || begun is RunOwned || begun is Handoff || begun is Restore
            ==> begun.goes_on(),
{
}

/// A connection is told whether it was let in, and, if it asked for tags, that
/// it has them.
pub proof fn law_identity_is_answered_in_its_mode(response: Response, tagging: bool)
    requires
        response is AuthOk || response is Unauthorized,
    ensures
        identity(response, tagging).len() == if tagging {
            4int
        } else {
            3
        },
        identity(response, tagging)[0] == if response is AuthOk {
            79u8
        } else {
            69u8
        },
        identity(response, tagging)[1] == 110,
        tagging ==> identity(response, tagging)[2] == 84,
        identity(response, tagging).last() == 10,
{
}

/// A node outside a cluster takes no part in handoffs: what comes of one closes
/// the connection without a word.
pub proof fn law_lone_node_takes_no_part(
    command: Command,
    tag: Option<u32>,
    after: Option<NodeView>,
    begun: Begin,
    ring_id: u64,
    now: u128,
)
    requires
        request_begins(command, tag, None, after, begun, ring_id, now),
        command is Migrate || command is CancelMigration || command is Handoff,
    ensures
        after is None,
        begun matches Begin::Close { reply, error } && reply is None && error.kind
            == ErrorKind::InvalidData,
{
}

/// A node outside a cluster runs every client's request, for all of its keys.
pub proof fn law_lone_node_serves_every_key(
    command: Command,
    tag: Option<u32>,
    after: Option<NodeView>,
    begun: Begin,
    ring_id: u64,
    now: u128,
)
    requires
        request_begins(command, tag, None, after, begun, ring_id, now),
        command is Keyed || command is Clear,
    ensures
        after is None,
        begun is Run,
{
}

/// A handoff that is asked for again gets the same answer, and one that is asked
/// for while another is transferred is rejected; neither changes the node.
pub proof fn law_repeated_handoff_gets_the_same_answer(
    request: MigrateRequest,
    tag: Option<u32>,
    before: NodeView,
    slot: SlotView,
    after: Option<NodeView>,
    begun: Begin,
    ring_id: u64,
    now: u128,
)
    requires
        request_begins(
            Command::Migrate(request),
            tag,
            Some(before),
            after,
            begun,
            ring_id,
            now,
        ),
        request.token@ == before.token,
        before.leaving is None,
        before.slot == Some(slot),
    ensures
        slot.joining_name == request.joining_name@ && !slot.is_over(now) ==> after == Some(before)
            && (slot.acked_entries matches Some(entries) ==> begun.replies(
            encoded(Response::MigrationAccepted(entries), None),
        )) && (slot.acked_entries is None ==> begun.replies(
            encoded(Response::MigrationRejected, None),
        )),
        slot.joining_name != request.joining_name@ && slot.completed_at is None ==> after == Some(
            before,
        ) && begun.replies(encoded(Response::MigrationRejected, None)),
{
}

/// A handoff that takes the slot of one that came to nothing has the copies
/// restored that were marked for it, and the node believes again what it did
/// before; after one that was confirmed, or whose node has joined, nothing is.
pub proof fn law_new_handoff_undoes_an_abandoned_one(
    request: MigrateRequest,
    tag: Option<u32>,
    before: NodeView,
    after: Option<NodeView>,
    begun: Begin,
    ring_id: u64,
    now: u128,
)
    requires
        request_begins(
            Command::Migrate(request),
            tag,
            Some(before),
            after,
            begun,
            ring_id,
            now,
        ),
        begun is Handoff,
    ensures
        before.slot is None ==> begun->Handoff_0.restore@.len() == 0,
        before.slot matches Some(slot) ==> {
            let listed = exists|i: int|
                0 <= i < request.joined@.len() && (#[trigger] request.joined@[i]).0@
                    == slot.joining_name;
            &&& slot.confirmed || listed ==> begun->Handoff_0.restore@.len() == 0 && (
            after matches Some(left) && left.known == before.known)
            &&& !slot.confirmed && !listed ==> key_views(begun->Handoff_0.restore@)
                == slot.marked_keys && (after matches Some(left) && left.known == (
            if before.known matches Some(known) && known.ring.id == slot.after_ring.id {
                slot.pre_completion_ring
            } else {
                before.known
            }))
        },
{
    let roster = roster_names(request.joined@);
    if let Some(slot) = before.slot {
        if roster.contains(slot.joining_name) {
            let i = roster.index_of(slot.joining_name);
            assert(request.joined@[i].0@ == slot.joining_name);
        }
        if exists|i: int| 0 <= i < request.joined@.len() && (#[trigger] request.joined@[i]).0@
            == slot.joining_name {
            let i = choose|i: int|
                0 <= i < request.joined@.len() && (#[trigger] request.joined@[i]).0@
                    == slot.joining_name;
            assert(roster[i] == slot.joining_name);
        }
    }
    let restore = begun->Handoff_0.restore@;
    assert(key_views(restore).len() == restore.len());
}

/// Ending a handoff has the copies restored that were marked for it once it was
/// done; one that still transfers restores its own, and where there is no such
/// handoff there is nothing to restore.
pub proof fn law_cancelling_restores_what_was_marked(
    token: String,
    joining_name: String,
    tag: Option<u32>,
    before: NodeView,
    after: Option<NodeView>,
    begun: Begin,
    ring_id: u64,
    now: u128,
)
    requires
        request_begins(
            Command::CancelMigration { token, joining_name },
            tag,
            Some(before),
            after,
            begun,
            ring_id,
            now,
        ),
        token@ == before.token,
    ensures
        begun is Restore,
        (before.slot matches Some(slot) && slot.joining_name == joining_name@
            && slot.completed_at is Some) ==> key_views(begun->Restore_restore@)
            == before.slot->0.marked_keys && (after matches Some(left) && left.slot is None),
        (before.slot matches Some(slot) ==> slot.joining_name != joining_name@
            || slot.completed_at is None) ==> begun->Restore_restore@.len() == 0,
        (before.slot matches Some(slot) ==> slot.joining_name != joining_name@) ==> after == Some(
            before,
        ),
        (before.slot matches Some(slot) && slot.joining_name == joining_name@
            && slot.completed_at is None) ==> (after matches Some(left) && left.slot matches Some(
            stopping,
        ) && stopping.abort_requested),
{
    let restore = begun->Restore_restore@;
    assert(key_views(restore).len() == restore.len());
}

/// Looking at the keys of a request changes nothing of a node but that what is
/// over is cleared from its slot.
pub proof fn law_checking_keys_clears_only_what_is_over(
    node: NodeView,
    namespace: Seq<u8>,
    names: Seq<Vec<u8>>,
    count: nat,
    now: u128,
)
    ensures
        after_checks(Some(node), namespace, names, count, now) matches Some(after) && after.name
            == node.name && after.token == node.token && after.known == node.known && after.leaving
            == node.leaving && (after.slot == node.slot || after.slot == live_slot(
            node.slot,
            now,
        )),
        after_checks(None, namespace, names, count, now) is None,
    decreases count,
{
    if count > 0 {
        law_checking_keys_clears_only_what_is_over(
            node,
            namespace,
            names,
            (count - 1) as nat,
            now,
        );
    }
}

/// What is passed on is viewed write by write, in order.
pub proof fn law_forwards_are_viewed_in_order(forwards: Seq<Forward>, index: int)
    requires
        0 <= index < forwards.len(),
    ensures
        forward_views(forwards).len() == forwards.len(),
        forward_views(forwards)[index].target.addr == forwards[index].target.addr@,
        forward_views(forwards)[index].target.token == forwards[index].target.token@,
        forward_views(forwards)[index].write == forwards[index].write@,
{
}

/// A connection ends quietly only between requests: one that ends within a
/// request, takes too long or sends too much at once is an error.
pub proof fn law_reads_are_judged_by_what_is_waiting(
    bytes_read: Option<usize>,
    buffered: usize,
    outcome: ReadOutcome,
)
    requires
        call_ensures(after_read, (bytes_read, buffered), outcome),
    ensures
        outcome is Closed <==> bytes_read == Some(0usize) && buffered == 0,
        outcome is Parse <==> (bytes_read matches Some(count) && count > 0) && buffered
            <= 1_048_576,
        bytes_read is None ==> (outcome matches ReadOutcome::Fail(error) && error.kind
            == ErrorKind::TimedOut),
        bytes_read == Some(0usize) && buffered > 0 ==> (outcome matches ReadOutcome::Fail(error)
            && error.kind == ErrorKind::UnexpectedEof),
{
}

/// Nothing comes of a request whose reply could not be sent: nothing is passed
/// on, and the node stays as it is.
pub proof fn law_unanswered_request_comes_to_nothing(
    command: Command,
    places: Vec<usize>,
    response: Response,
    node: &mut Option<NodeContext>,
    now: u128,
    forwards: Vec<Forward>,
)
    requires
        can_finish(command, places@, response),
        call_ensures(
            finish_command,
            (&command, &places, &response, false, node, now),
            forwards,
        ),
    ensures
        forwards@.len() == 0,
        node_view(*final(node)) == node_view(*old(node)),
{
}

/// What a client stores goes on whole: with its reply sent, a store is passed on
/// to a node that takes the key over, with the key, the value and the time to
/// live of the request.
pub proof fn law_answered_store_goes_on_whole(
    key: Key,
    value: Vec<u8>,
    ttl: Option<u128>,
    places: Vec<usize>,
    response: Response,
    node: &mut Option<NodeContext>,
    context: NodeView,
    now: u128,
    forwards: Vec<Forward>,
)
    requires
        node_view(*old(node)) == Some(context),
        call_ensures(
            finish_command,
            (
                &Command::Keyed { key, operation: KeyOperation::Store { value, ttl } },
                &places,
                &response,
                true,
                node,
                now,
            ),
            forwards,
        ),
    ensures
        reaches_both(
            forward_views(forwards@),
            context,
            key@,
            OwnedWriteView::Store { key: key@, value: value@, ttl },
            OwnedWriteView::HandoffSet { key: key@, value: value@, ttl },
            now,
        ),
{
    law_store_is_passed_on_as_made(key, value, ttl, places@, response, context, now);
}

/// A request that came in whole renews the deadline of its connection, and no
/// other thing about it but the secret changes whether it is let in.
pub proof fn law_whole_request_renews_the_deadline(
    connection: &mut Connection,
    command: Command,
    tag: Option<u32>,
    auth_secret: Option<Vec<u8>>,
    node: &mut Option<NodeContext>,
    idle_timeout: u128,
    ring_id: u64,
    now: u128,
    begun: Begin,
)
    requires
        command.wf(),
        call_ensures(
            Connection::begin_command,
            (connection, &command, tag, &auth_secret, node, idle_timeout, ring_id, now),
            begun,
        ),
    ensures
        now + idle_timeout <= u128::MAX ==> final(connection).deadline == now + idle_timeout,
        !(command is Auth) ==> final(connection).authenticated == old(connection).authenticated
            && final(connection).tagged == old(connection).tagged,
        !old(connection).authenticated ==> !begun.goes_on() && node_view(*final(node)) == node_view(
            *old(node),
        ),
{
}

/// A handoff is acknowledged with the number of keys that move, and the number is
/// kept for when the request is repeated.
pub proof fn law_acknowledged_number_is_kept(
    node: &mut NodeContext,
    handoff: BegunHandoff,
    joining_name: &str,
    replication: usize,
    keys: Option<Vec<Key>>,
    reply: Vec<u8>,
)
    requires
        call_ensures(accept_handoff, (node, &handoff, joining_name, replication, &keys), reply),
        old(node)@.slot is Some,
    ensures
        final(node)@.slot matches Some(after) && (after.acked_entries matches Some(entries)
            && reply@ == encoded(Response::MigrationAccepted(entries), None) && (keys is None
            ==> entries == 0) && (keys matches Some(listed) ==> entries == moving_keys(
            key_views(listed@),
            handoff.before_ring@,
            handoff.after_ring@.nodes,
            old(node)@.name,
            joining_name@,
            replication as nat,
            listed@.len(),
        ))) && after.joining_name == old(node)@.slot->0.joining_name && after.completed_at
            == old(node)@.slot->0.completed_at,
        final(node)@.known == old(node)@.known,
{
    if let Some(listed) = keys {
        law_acknowledged_entries_are_the_moving_keys(
            listed,
            handoff.before_ring@,
            handoff.after_ring@.nodes,
            old(node)@.name,
            joining_name@,
            replication as nat,
        );
    }
}

} // verus!
