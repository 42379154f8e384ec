use nanocached::cluster::Directory;
use nanocached::cluster::Membership;
use nanocached::cluster::SharedRing;
use nanocached::command::CasCondition;
use nanocached::command::Command;
use nanocached::command::HandoffOperation;
use nanocached::command::KeyOperation;
use nanocached::command::MigrateRequest;
use nanocached::connection::accept_handoff;
use nanocached::connection::after_read;
use nanocached::connection::answer_fits;
use nanocached::connection::finish_command;
use nanocached::connection::reply_to;
use nanocached::connection::Begin;
use nanocached::connection::BegunHandoff;
use nanocached::connection::Connection;
use nanocached::connection::Forward;
use nanocached::connection::ReadOutcome;
use nanocached::connection::ReadPlan;
use nanocached::fault::ErrorKind;
use nanocached::forward::ForwardedWrite;
use nanocached::key::Key;
use nanocached::leave::LeaveState;
use nanocached::limits::MAX_REQUEST_SIZE;
use nanocached::message::from_secs;
use nanocached::message::ClearScope;
use nanocached::node::NodeContext;
use nanocached::response::encode_response;
use nanocached::response::MultiAckEntry;
use nanocached::response::MultiEntry;
use nanocached::response::Response;
use nanocached::ring::HashRing;

const NOW: u128 = 1_000_000_000_000_000;
const IDLE: u128 = 60_000_000_000;

fn key(name: &[u8]) -> Key {
    Key::unnamespaced(name.to_vec())
}

fn ring(names: &[&str]) -> HashRing {
    HashRing::new(names.iter().map(|name| name.to_string()).collect())
}

fn get(name: &[u8]) -> Command {
    Command::Keyed {
        key: key(name),
        operation: KeyOperation::Get,
    }
}

fn store(name: &[u8], value: &[u8]) -> Command {
    Command::Keyed {
        key: key(name),
        operation: KeyOperation::Store {
            value: value.to_vec(),
            ttl: None,
        },
    }
}

fn auth(secret: &[u8], tagging: bool) -> Command {
    Command::Auth {
        secret: secret.to_vec(),
        tagging,
    }
}

struct Session {
    connection: Connection,
    secret: Option<Vec<u8>>,
    node: Option<NodeContext>,
}

impl Session {
    fn new(secret: Option<&[u8]>, node: Option<NodeContext>) -> Session {
        let secret = secret.map(|secret| secret.to_vec());
        Session {
            connection: Connection::new(&secret, IDLE, NOW),
            secret,
            node,
        }
    }

    fn begin(&mut self, command: &Command, tag: Option<u32>) -> Begin {
        self.connection.begin_command(
            command,
            tag,
            &self.secret,
            &mut self.node,
            IDLE,
            42,
            NOW,
        )
    }

    fn reply(&mut self, command: &Command, tag: Option<u32>) -> Vec<u8> {
        match self.begin(command, tag) {
            Begin::Reply(reply) => reply,
            other => panic!("unexpected {other:?}"),
        }
    }

    fn close(&mut self, command: &Command) -> (Option<Vec<u8>>, ErrorKind, &'static str) {
        match self.begin(command, None) {
            Begin::Close { reply, error } => (reply, error.kind, error.text),
            other => panic!("unexpected {other:?}"),
        }
    }

    fn finish(&mut self, command: &Command, places: &[usize], response: Response) -> End {
        self.finish_tagged(command, None, places, response)
    }

    fn finish_tagged(
        &mut self,
        command: &Command,
        tag: Option<u32>,
        places: &[usize],
        response: Response,
    ) -> End {
        let places = places.to_vec();
        assert!(answer_fits(command, &places, &response));
        End {
            reply: reply_to(command, tag, &places, &response),
            forwards: finish_command(command, &places, &response, true, &mut self.node, NOW),
        }
    }
}

/// How a request ends whose reply is sent.
struct End {
    reply: Vec<u8>,
    forwards: Vec<Forward>,
}

#[test]
fn handle_connection_rejects_commands_sent_before_authenticating() {
    let mut session = Session::new(Some(b"correct-secret"), None);
    assert_eq!(
        session.close(&get(b"name")),
        (
            Some(b"En\n".to_vec()),
            ErrorKind::PermissionDenied,
            "command sent before authenticating"
        )
    );
}

#[test]
fn handle_connection_rejects_an_incorrect_auth_secret() {
    let mut session = Session::new(Some(b"correct-secret"), None);
    assert_eq!(
        session.close(&auth(b"wrong-value", false)),
        (
            Some(b"En\n".to_vec()),
            ErrorKind::PermissionDenied,
            "invalid auth secret"
        )
    );
    assert!(!session.connection.authenticated);
}

#[test]
fn handle_connection_accepts_commands_after_correct_auth() {
    let mut session = Session::new(Some(b"correct-secret"), None);
    assert_eq!(
        session.reply(&auth(b"correct-secret", false), None),
        b"On\n".to_vec()
    );
    let command = get(b"name");
    assert!(matches!(session.begin(&command, None), Begin::Run));
    assert_eq!(
        session.finish(&command, &[], Response::NotFound).reply,
        b"N\n".to_vec()
    );
}

#[test]
fn handle_connection_answers_a_tagged_auth_rejection_in_kind() {
    let mut session = Session::new(Some(b"correct-secret"), None);
    let (reply, kind, _) = session.close(&auth(b"wrong", true));
    assert_eq!(reply, Some(b"EnT\n".to_vec()));
    assert_eq!(kind, ErrorKind::PermissionDenied);
}

#[test]
fn handle_connection_treats_auth_as_a_no_op_when_no_secret_is_configured() {
    let mut session = Session::new(None, None);
    assert!(session.connection.authenticated);
    assert_eq!(
        session.reply(&auth(b"anything", false), None),
        b"On\n".to_vec()
    );
}

#[test]
fn handle_connection_echoes_tags_after_a_tagged_auth() {
    let mut session = Session::new(None, None);
    assert_eq!(session.reply(&auth(b"x", true), None), b"OnT\n".to_vec());
    assert!(session.connection.tagged);
    let mut replies = Vec::new();
    for (command, tag, response) in [
        (store(b"name", b"Alice"), 7, Response::Stored),
        (get(b"name"), 8, Response::Value(b"Alice".to_vec())),
        (
            Command::Keyed {
                key: key(b"name"),
                operation: KeyOperation::Store {
                    value: b"Alice".to_vec(),
                    ttl: Some(from_secs(60)),
                },
            },
            9,
            Response::Stored,
        ),
        (get(b"other"), 10, Response::NotFound),
        (
            Command::Keyed {
                key: key(b"name"),
                operation: KeyOperation::Delete,
            },
            11,
            Response::Deleted,
        ),
    ] {
        assert!(matches!(session.begin(&command, Some(tag)), Begin::Run));
        let end = session.finish_tagged(&command, Some(tag), &[], response);
        replies.extend_from_slice(&end.reply);
    }
    assert_eq!(replies, b"S 7\nV 5 8\nAliceS 9\nN 10\nD 11\n".to_vec());
}

#[test]
fn handle_connection_dispatches_incr_and_replies_with_the_new_value() {
    let mut session = Session::new(None, None);
    let command = Command::Keyed {
        key: key(b"foo"),
        operation: KeyOperation::Incr { delta: 5 },
    };
    assert!(matches!(session.begin(&command, None), Begin::Run));
    let end = session.finish(&command, &[], Response::Incremented(b"15".to_vec(), None));
    assert_eq!(end.reply, b"I 2\n15".to_vec());
}

#[test]
fn clear_echoes_the_tag_in_tagged_mode() {
    assert_eq!(
        encode_response(&Response::Cleared, Some(3)),
        b"C 3\n".to_vec()
    );
    assert_eq!(encode_response(&Response::Cleared, None), b"C\n".to_vec());
    // What is sent unasked carries no tag.
    assert_eq!(encode_response(&Response::Busy, Some(3)), b"B\n".to_vec());
}

#[test]
fn only_a_whole_request_renews_the_deadline() {
    let secret = None;
    let mut connection = Connection::new(&secret, IDLE, NOW);
    assert_eq!(connection.deadline, NOW + IDLE);
    let later = NOW + IDLE / 2;
    assert_eq!(
        connection.plan_read(false, 10, 10, later),
        ReadPlan::Read {
            shrink: false,
            wait: IDLE / 2
        }
    );
    assert_eq!(
        connection.plan_read(false, 10, 10, NOW + 2 * IDLE),
        ReadPlan::Read {
            shrink: false,
            wait: 0
        }
    );
    connection.begin_command(&get(b"x"), None, &secret, &mut None, IDLE, 1, later);
    assert_eq!(connection.deadline, later + IDLE);
}

#[test]
fn a_large_buffer_is_given_back_once_it_is_not_needed() {
    let connection = Connection::new(&None, IDLE, NOW);
    let shrink = |capacity, buffered| match connection.plan_read(false, capacity, buffered, NOW) {
        ReadPlan::Read { shrink, .. } => shrink,
        ReadPlan::Stop => panic!("not shutting down"),
    };
    assert!(shrink(65_537, 65_536));
    assert!(!shrink(65_537, 65_537));
    assert!(!shrink(65_536, 0));
    assert_eq!(
        connection.plan_read(true, 0, 0, NOW),
        ReadPlan::Stop
    );
}

#[test]
fn reads_are_judged_by_what_they_brought() {
    let fails = |outcome| match outcome {
        ReadOutcome::Fail(error) => (error.kind, error.text),
        other => panic!("unexpected {other:?}"),
    };
    assert_eq!(
        fails(after_read(None, 5)),
        (ErrorKind::TimedOut, "connection idle timeout")
    );
    assert_eq!(after_read(Some(0), 0), ReadOutcome::Closed);
    assert_eq!(
        fails(after_read(Some(0), 5)),
        (
            ErrorKind::UnexpectedEof,
            "connection closed before request was complete"
        )
    );
    assert_eq!(
        fails(after_read(Some(1), MAX_REQUEST_SIZE + 1)),
        (ErrorKind::InvalidData, "request is too large")
    );
    assert_eq!(after_read(Some(1), MAX_REQUEST_SIZE), ReadOutcome::Parse);
}

fn node_that_owns_nothing() -> NodeContext {
    let mut node = NodeContext::new("self".to_string(), "tk-self".to_string());
    node.known_ring = Some(Membership {
        ring: SharedRing {
            id: 1,
            ring: ring(&["other"]),
        },
        replication: 1,
    });
    node
}

fn handoff(operation: HandoffOperation, token: &str) -> Command {
    Command::Handoff {
        key: key(b"name"),
        operation,
        token: token.to_string(),
    }
}

#[test]
fn handoff_set_bypasses_the_wrong_node_check() {
    let mut session = Session::new(None, Some(node_that_owns_nothing()));
    assert_eq!(
        session.reply(&store(b"name", b"Alice"), None),
        b"W\n".to_vec()
    );
    let command = handoff(
        HandoffOperation::Store {
            value: b"Alice".to_vec(),
            ttl: None,
            if_absent: false,
        },
        "tk-self",
    );
    assert!(matches!(session.begin(&command, None), Begin::Run));
    assert_eq!(
        session.finish(&command, &[], Response::Stored).reply,
        b"S\n".to_vec()
    );
    assert_eq!(session.reply(&get(b"name"), None), b"W\n".to_vec());
}

#[test]
fn handoff_set_with_the_wrong_token_is_rejected_and_stores_nothing() {
    let mut session = Session::new(None, Some(node_that_owns_nothing()));
    let (reply, kind, _) = session.close(&handoff(
        HandoffOperation::Store {
            value: b"Alice".to_vec(),
            ttl: None,
            if_absent: false,
        },
        "tk-not-mine",
    ));
    assert_eq!(reply, Some(b"R\n".to_vec()));
    assert_eq!(kind, ErrorKind::PermissionDenied);
}

#[test]
fn handoff_delete_with_the_wrong_token_is_rejected_and_deletes_nothing() {
    let mut session = Session::new(None, Some(node_that_owns_nothing()));
    let (reply, kind, _) = session.close(&handoff(HandoffOperation::Delete, "tk-not-mine"));
    assert_eq!(reply, Some(b"R\n".to_vec()));
    assert_eq!(kind, ErrorKind::PermissionDenied);
}

fn migrate(joining_name: &str, token: &str) -> Command {
    Command::Migrate(MigrateRequest {
        token: token.to_string(),
        joining_name: joining_name.to_string(),
        joining_addr: "127.0.0.1:9".to_string(),
        joining_token: "tok-joiner".to_string(),
        joined: vec![("ready-node".to_string(), "127.0.0.1:1".to_string())],
        replication: 2,
    })
}

fn cluster_session() -> Session {
    Session::new(
        None,
        Some(NodeContext::new(
            "ready-node".to_string(),
            "tk-ready".to_string(),
        )),
    )
}

fn begin_handoff(session: &mut Session, joining_name: &str) -> BegunHandoff {
    match session.begin(&migrate(joining_name, "tk-ready"), None) {
        Begin::Handoff(handoff) => handoff,
        other => panic!("unexpected {other:?}"),
    }
}

#[test]
fn migrate_command_with_the_wrong_token_is_rejected_and_transfers_nothing() {
    let mut session = cluster_session();
    assert_eq!(
        session.close(&migrate("joiner-0", "tk-not-mine")),
        (
            Some(b"R\n".to_vec()),
            ErrorKind::PermissionDenied,
            "M carried the wrong membership token"
        )
    );
    assert!(session.node.as_ref().unwrap().active_migration.is_none());
    assert_eq!(
        Session::new(None, None).close(&migrate("joiner-0", "")),
        (
            None,
            ErrorKind::InvalidData,
            "received M but this node isn't configured with a discovery server"
        )
    );
}

#[test]
fn migrate_command_re_acks_a_duplicate_m_for_the_same_joining_node() {
    let mut session = cluster_session();
    let handoff = begin_handoff(&mut session, "joiner-0");
    assert!(handoff.restore.is_empty());
    let keys = Some(vec![key(b"name")]);
    let reply = accept_handoff(
        session.node.as_mut().unwrap(),
        &handoff,
        "joiner-0",
        2,
        &keys,
    );
    assert_eq!(reply, b"A 1\n".to_vec());
    assert_eq!(
        session.reply(&migrate("joiner-0", "tk-ready"), None),
        b"A 1\n".to_vec()
    );
    // Another join has to wait for the one that runs.
    assert_eq!(
        session.reply(&migrate("joiner-1", "tk-ready"), None),
        b"R\n".to_vec()
    );
}

#[test]
fn a_handoff_without_a_list_of_keys_is_acknowledged_with_none() {
    let mut session = cluster_session();
    let handoff = begin_handoff(&mut session, "joiner-0");
    let reply = accept_handoff(
        session.node.as_mut().unwrap(),
        &handoff,
        "joiner-0",
        2,
        &None,
    );
    assert_eq!(reply, b"A 0\n".to_vec());
}

#[test]
fn a_cancel_stops_a_running_handoff_and_restores_a_completed_one() {
    let cancel = |token: &str| Command::CancelMigration {
        token: token.to_string(),
        joining_name: "joiner-0".to_string(),
    };
    let mut session = cluster_session();
    begin_handoff(&mut session, "joiner-0");
    assert_eq!(
        session.close(&cancel("tk-not-mine")),
        (
            None,
            ErrorKind::PermissionDenied,
            "X carried the wrong membership token"
        )
    );
    match session.begin(&cancel("tk-ready"), None) {
        Begin::Restore { restore, .. } => assert!(restore.is_empty()),
        other => panic!("unexpected {other:?}"),
    }
    let slot = |session: &mut Session| session.node.as_mut().unwrap().active_migration.take();
    let mut active = slot(&mut session).unwrap();
    assert!(active.abort_requested);
    active.completed_at = Some(NOW);
    active.marked_keys = vec![key(b"dead")];
    session.node.as_mut().unwrap().active_migration = Some(active);
    match session.begin(&cancel("tk-ready"), None) {
        Begin::Restore { restore, .. } => assert_eq!(restore, vec![key(b"dead")]),
        other => panic!("unexpected {other:?}"),
    }
    assert!(slot(&mut session).is_none());
}

/// The frames that the forwards of a request are sent as.
fn frames(end: &End) -> Vec<Vec<u8>> {
    end.forwards
        .iter()
        .map(|forward| {
            let write: ForwardedWrite = forward.write.attempt(&forward.target);
            write.message()
        })
        .collect()
}

#[test]
fn migrate_command_multi_set_forwards_owned_keys_to_the_joining_node() {
    let mut session = cluster_session();
    begin_handoff(&mut session, "joiner-0");
    let command = Command::MultiSet {
        namespace: Vec::new(),
        keys: vec![b"key-a".to_vec(), b"key-b".to_vec()],
        values: vec![b"v1".to_vec(), b"v2".to_vec()],
        ttl: None,
    };
    let places = match session.begin(&command, None) {
        Begin::RunOwned(places) => places,
        other => panic!("unexpected {other:?}"),
    };
    assert_eq!(places, vec![0, 1]);
    let end = session.finish(
        &command,
        &places,
        Response::MultiAck(vec![MultiAckEntry::Stored, MultiAckEntry::Stored]),
    );
    assert_eq!(end.reply, b"O 2 S S\n".to_vec());
    assert_eq!(
        frames(&end),
        vec![b"S 5 2\nkey-av1".to_vec(), b"S 5 2\nkey-bv2".to_vec()]
    );
    // A key that the cache refused is not passed on.
    let end = session.finish(
        &command,
        &places,
        Response::MultiAck(vec![MultiAckEntry::WrongNode, MultiAckEntry::Stored]),
    );
    assert_eq!(frames(&end), vec![b"S 5 2\nkey-bv2".to_vec()]);
}

#[test]
fn nothing_comes_of_a_request_whose_reply_cannot_be_sent() {
    let mut session = cluster_session();
    begin_handoff(&mut session, "joiner-0");
    let several = Command::MultiSet {
        namespace: Vec::new(),
        keys: vec![b"key-a".to_vec()],
        values: vec![b"v1".to_vec()],
        ttl: None,
    };
    let stored = Response::MultiAck(vec![MultiAckEntry::Stored]);
    let clear = Command::Clear(ClearScope::All);
    for (command, places, response) in [
        (store(b"name", b"v"), vec![], Response::Stored),
        (several, vec![0], stored),
        (clear, vec![], Response::Cleared),
    ] {
        let mut end = |replied: bool| {
            finish_command(&command, &places, &response, replied, &mut session.node, NOW).len()
        };
        assert_eq!(end(false), 0);
    }
    let waiting = |session: &Session| {
        let active = session.node.as_ref().unwrap().active_migration.as_ref();
        active.unwrap().pending_clears.len()
    };
    assert_eq!(waiting(&session), 0);
    session.finish(&Command::Clear(ClearScope::All), &[], Response::Cleared);
    assert_eq!(waiting(&session), 1);
}

#[test]
fn an_answer_has_to_fit_its_request() {
    let command = Command::MultiGet {
        namespace: Vec::new(),
        keys: vec![b"a".to_vec(), b"b".to_vec()],
    };
    let one = Response::Multi(vec![MultiEntry::WrongNode]);
    assert!(answer_fits(&command, &vec![1], &one));
    assert!(!answer_fits(&command, &vec![2], &one));
    assert!(!answer_fits(&command, &vec![0, 1], &one));
    assert!(!answer_fits(&command, &vec![1], &Response::Stored));
    let two = Response::Multi(vec![MultiEntry::WrongNode, MultiEntry::WrongNode]);
    assert!(answer_fits(&command, &vec![0, 1], &two));
    assert!(!answer_fits(&command, &vec![1, 1], &two));
    assert!(!answer_fits(&command, &vec![1, 0], &two));
    assert!(answer_fits(&get(b"a"), &Vec::new(), &Response::NotFound));
    assert!(!answer_fits(&auth(b"x", false), &Vec::new(), &Response::AuthOk));
}

#[test]
fn nothing_reaches_the_cache_before_the_secret() {
    let mut session = Session::new(Some(b"secret"), None);
    for command in [
        get(b"a"),
        auth(b"wrong", false),
        Command::Clear(ClearScope::All),
    ] {
        assert!(matches!(session.begin(&command, None), Begin::Close { .. }));
    }
    session.reply(&auth(b"secret", false), None);
    assert!(matches!(session.begin(&get(b"a"), None), Begin::Run));
}

fn leaving_node() -> NodeContext {
    let mut addresses = Directory::new();
    let mut tokens = Directory::new();
    addresses.insert("peer".to_string(), "127.0.0.1:7".to_string());
    tokens.insert("peer".to_string(), "tok-peer".to_string());
    let mut node = NodeContext::new("leaver".to_string(), "tk-leaver".to_string());
    node.leaving = Some(LeaveState {
        before_ring: ring(&["leaver", "peer"]),
        after_ring: ring(&["peer"]),
        replication: 1,
        addresses,
        tokens,
    });
    node
}

fn owned_names(count: usize) -> Vec<String> {
    let before = ring(&["leaver", "peer"]);
    (0..1000)
        .map(|index| format!("key-{index}"))
        .filter(|name| before.is_owner(&key(name.as_bytes()), "leaver", 1))
        .take(count)
        .collect()
}

#[test]
fn decommission_multi_set_forwards_owned_keys_to_the_entrant() {
    let names = owned_names(2);
    let mut session = Session::new(None, Some(leaving_node()));
    let command = Command::MultiSet {
        namespace: Vec::new(),
        keys: names.iter().map(|name| name.as_bytes().to_vec()).collect(),
        values: vec![b"v1".to_vec(), b"v2".to_vec()],
        ttl: None,
    };
    assert!(matches!(session.begin(&command, None), Begin::RunOwned(_)));
    let end = session.finish(
        &command,
        &[0, 1],
        Response::MultiAck(vec![MultiAckEntry::Stored, MultiAckEntry::Stored]),
    );
    let expected: Vec<Vec<u8>> = names
        .iter()
        .zip(["v1", "v2"])
        .map(|(name, value)| {
            format!("U 0 {} 2 8\ntok-peer{name}{value}", name.len()).into_bytes()
        })
        .collect();
    assert_eq!(frames(&end), expected);
    // A node that leaves takes no part in a join.
    assert_eq!(
        session.reply(&migrate("joiner-0", "tk-leaver"), None),
        b"R\n".to_vec()
    );
}

#[test]
fn only_what_applied_is_passed_on() {
    let name = owned_names(1).remove(0);
    let mut session = Session::new(None, Some(leaving_node()));
    let mut sent = |operation: KeyOperation, response: Response| {
        let command = Command::Keyed {
            key: key(name.as_bytes()),
            operation,
        };
        frames(&session.finish(&command, &[], response))
    };
    let set = |value: &str, ttl: &str| {
        format!(
            "U 0 {} {} 8{ttl}\ntok-peer{name}{value}",
            name.len(),
            value.len()
        )
        .into_bytes()
    };
    let delete = format!("u 0 {} 8\ntok-peer{name}", name.len()).into_bytes();
    let cas = || KeyOperation::CasStore {
        condition: CasCondition::Absent,
        value: b"new".to_vec(),
        ttl: None,
    };
    let cas_delete = || KeyOperation::CasDelete {
        expected_digest: [0; 16],
    };

    assert!(sent(KeyOperation::Get, Response::Value(b"v".to_vec())).is_empty());
    assert_eq!(
        sent(KeyOperation::Delete, Response::NotFound),
        vec![delete.clone()]
    );
    // An increment travels as the value it led to.
    assert_eq!(
        sent(
            KeyOperation::Incr { delta: 1 },
            Response::Incremented(b"15".to_vec(), Some(from_secs(30)))
        ),
        vec![set("15", " 30")]
    );
    assert!(sent(KeyOperation::Incr { delta: 1 }, Response::WrongNode).is_empty());
    assert_eq!(sent(cas(), Response::Stored), vec![set("new", "")]);
    assert!(sent(cas(), Response::NotFound).is_empty());
    assert_eq!(sent(cas_delete(), Response::Deleted), vec![delete]);
    assert!(sent(cas_delete(), Response::NotFound).is_empty());
}

#[test]
fn a_put_if_absent_of_a_peer_is_not_passed_on() {
    let mut session = cluster_session();
    begin_handoff(&mut session, "joiner-0");
    let put = |if_absent: bool| {
        handoff(
            HandoffOperation::Store {
                value: b"v".to_vec(),
                ttl: None,
                if_absent,
            },
            "tk-ready",
        )
    };
    assert!(frames(&session.finish(&put(true), &[], Response::Stored)).is_empty());
    assert_eq!(
        frames(&session.finish(&put(false), &[], Response::Stored)),
        vec![b"S 4 1\nnamev".to_vec()]
    );
    let delete = handoff(HandoffOperation::Delete, "tk-ready");
    assert_eq!(
        frames(&session.finish(&delete, &[], Response::Deleted)),
        vec![b"D 4\nname".to_vec()]
    );
}

#[test]
fn a_read_of_several_keys_keeps_their_order() {
    let names: Vec<String> = (0..6).map(|index| format!("key-{index}")).collect();
    let known = ring(&["self", "other"]);
    let mut node = NodeContext::new("self".to_string(), "tk-self".to_string());
    node.known_ring = Some(Membership {
        ring: SharedRing {
            id: 1,
            ring: known.clone(),
        },
        replication: 1,
    });
    let mut session = Session::new(None, Some(node));
    let command = Command::MultiGet {
        namespace: Vec::new(),
        keys: names.iter().map(|name| name.as_bytes().to_vec()).collect(),
    };
    let owned: Vec<usize> = (0..6)
        .filter(|index| known.is_owner(&key(names[*index].as_bytes()), "self", 1))
        .collect();
    assert!(!owned.is_empty() && owned.len() < 6);
    match session.begin(&command, None) {
        Begin::RunOwned(places) => assert_eq!(places, owned),
        other => panic!("unexpected {other:?}"),
    }
    let results = owned
        .iter()
        .map(|index| MultiEntry::Value(format!("v{index}").into_bytes()))
        .collect();
    let end = session.finish(&command, &owned, Response::Multi(results));
    let mut head = "M 6".to_string();
    let mut body = String::new();
    for index in 0..6 {
        if owned.contains(&index) {
            head.push_str(" 2");
            body.push_str(&format!("v{index}"));
        } else {
            head.push_str(" W");
        }
    }
    assert_eq!(end.reply, format!("{head}\n{body}").into_bytes());
    assert!(end.forwards.is_empty());

    // None of the keys: the cache is not asked at all.
    let mut session = Session::new(None, Some(node_that_owns_nothing()));
    assert_eq!(
        session.reply(&command, Some(5)),
        b"M 6 W W W W W W 5\n".to_vec()
    );
}

#[test]
fn a_clear_waits_for_a_running_handoff_and_follows_a_completed_one() {
    let mut session = cluster_session();
    let command = Command::Clear(ClearScope::Namespace(b"users".to_vec()));
    assert!(matches!(session.begin(&command, None), Begin::Run));
    let end = session.finish(&command, &[], Response::Cleared);
    assert_eq!(end.reply, b"C\n".to_vec());
    assert!(end.forwards.is_empty());
    begin_handoff(&mut session, "joiner-0");
    assert!(session
        .finish(&command, &[], Response::Cleared)
        .forwards
        .is_empty());
    let active = session
        .node
        .as_mut()
        .unwrap()
        .active_migration
        .as_mut()
        .unwrap();
    assert_eq!(active.pending_clears.len(), 1);
    active.completed_at = Some(NOW);
    active.forwarding_grace = from_secs(60);
    assert_eq!(
        frames(&session.finish(&command, &[], Response::Cleared)),
        vec![b"c 5\nusers".to_vec()]
    );
}
