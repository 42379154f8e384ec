use nanocached::cluster::RosterEntry;
use nanocached::exchange::check_auth_ack;
use nanocached::exchange::check_completion_ack;
use nanocached::exchange::check_leave_ack;
use nanocached::fault::ErrorKind;
use nanocached::forward::AuthPeer;
use nanocached::node::NodeContext;
use nanocached::registration::adopt_roster;
use nanocached::registration::auth_verdict;
use nanocached::registration::discovery_role;
use nanocached::registration::AuthVerdict;
use nanocached::registration::DiscoveryRole;
use nanocached::registration::Phase;
use nanocached::registration::Registration;
use nanocached::registration::RegistrationAction;
use nanocached::registration::RegistrationEvent;
use nanocached::roster::next_fetch;
use nanocached::roster::nothing_to_ask;
use nanocached::roster::read_heartbeat_ack;
use nanocached::roster::read_roster;
use nanocached::roster::AckRead;
use nanocached::roster::AckReader;
use nanocached::roster::FetchStep;
use nanocached::roster::RosterRead;
use nanocached::roster::RosterReader;
use nanocached::scan::read_line_capped;
use nanocached::scan::LineRead;

/// What a new reader makes of all that has been received.
fn read_ack(received: &[u8], ended: bool) -> AckRead {
    read_heartbeat_ack(&mut AckReader::new(), received, ended)
}

fn read_whole_roster(received: &[u8], ended: bool) -> RosterRead {
    read_roster(&mut RosterReader::new(), received, ended)
}

fn ack(stream: &[u8]) -> (Option<(Vec<String>, usize)>, usize) {
    match read_ack(stream, true) {
        AckRead::Ready { roster, used } => (roster, used),
        other => panic!("unexpected {other:?}"),
    }
}

#[test]
fn read_heartbeat_ack_parses_a_bare_ack_and_a_roster() {
    assert!(ack(b"A\n").0.is_none());

    let stream: &[u8] = b"A 2 3\n6 14\nnode-a127.0.0.1:9001\n6 14\nnode-b127.0.0.1:9002\nA\n";
    let (roster, used) = ack(stream);
    assert_eq!(
        roster,
        Some((vec!["node-a".to_string(), "node-b".to_string()], 3))
    );
    // Consumed exactly the roster: the next ack is still readable.
    assert!(ack(&stream[used..]).0.is_none());
    assert_eq!(used, stream.len() - 2);
}

#[test]
fn read_heartbeat_ack_rejects_malformed_acks() {
    for malformed in [
        &b"B\n"[..],
        b"A 1\n",
        b"A 1 0\n6 14\nnode-a127.0.0.1:9001\n",
        b"A 1 2\n6 14\nnode-a127.0.0.1:9001X",
        b"A 1 2\n6 14 7\nnode-a127.0.0.1:9001\n",
        b"A 99999999 2\n",
        b"A 1 2\n99999 14\n",
    ] {
        assert!(
            matches!(read_ack(malformed, true), AckRead::Failed(_)),
            "{malformed:?} should be rejected"
        );
    }
    match read_ack(b"A 1 2\n1 0\n\xff\n", true) {
        AckRead::Failed(error) => {
            assert_eq!(error.kind, ErrorKind::InvalidData);
            assert_eq!(error.text, "malformed heartbeat ack");
        }
        other => panic!("unexpected {other:?}"),
    }
}

#[test]
fn read_heartbeat_ack_caps_an_unterminated_line() {
    let flood = vec![b'x'; 10 * 1024 * 1024];

    // The header line.
    match read_ack(&flood, false) {
        AckRead::Failed(error) => {
            assert_eq!(error.kind, ErrorKind::InvalidData);
            assert!(error.text.contains("size cap"), "header: got {error:?}");
        }
        other => panic!("unexpected {other:?}"),
    }

    // An entry's length-prefix line, after a well-formed header.
    let mut stream = b"A 1 2\n".to_vec();
    stream.extend_from_slice(&flood);
    match read_ack(&stream, false) {
        AckRead::Failed(error) => {
            assert_eq!(error.kind, ErrorKind::InvalidData);
            assert!(error.text.contains("size cap"), "entry: got {error:?}");
        }
        other => panic!("unexpected {other:?}"),
    }
}

#[test]
fn an_ack_reads_the_same_however_it_arrives() {
    let stream: &[u8] = b"A 2 3\n6 14\nnode-a127.0.0.1:9001\n6 14\nnode-b127.0.0.1:9002\nA\n";
    let whole = stream.len() - 2;
    for length in 0..whole {
        assert!(matches!(
            read_ack(&stream[..length], false),
            AckRead::More { .. }
        ));
        assert!(matches!(
            read_ack(&stream[..length], true),
            AckRead::Failed(_)
        ));
    }
    for length in whole..=stream.len() {
        assert_eq!(read_ack(&stream[..length], false), read_ack(stream, true));
    }
    // Byte by byte; what is taken in is let go of.
    let mut reader = AckReader::new();
    let mut received = Vec::new();
    let mut found = Vec::new();
    for byte in stream {
        received.push(*byte);
        match read_heartbeat_ack(&mut reader, &received, false) {
            AckRead::More { used } => {
                received.drain(..used);
                assert!(received.len() < 30);
            }
            AckRead::Ready { roster, used } => {
                received.drain(..used);
                found.push(roster);
            }
            AckRead::Failed(error) => panic!("unexpected {error:?}"),
        }
    }
    let names = vec!["node-a".to_string(), "node-b".to_string()];
    assert_eq!(found, vec![Some((names, 3)), None]);
    assert!(received.is_empty());

    match read_ack(b"A 1 2\n6 14\nnode-a127", true) {
        AckRead::Failed(error) => assert_eq!(error.kind, ErrorKind::UnexpectedEof),
        other => panic!("unexpected {other:?}"),
    }
}

#[test]
fn numbers_may_have_a_plus_sign_and_leading_zeros() {
    assert_eq!(
        ack(b"A +01 002\n01 +0\nx\n").0,
        Some((vec!["x".to_string()], 2))
    );
}

fn roster_error(response: &[u8], ended: bool) -> (ErrorKind, &'static str) {
    match read_whole_roster(response, ended) {
        RosterRead::Failed(error) => (error.kind, error.text),
        other => panic!("unexpected {other:?}"),
    }
}

#[test]
fn fetch_roster_once_caps_an_unterminated_line() {
    // The header line.
    let (kind, text) = roster_error(&vec![b'x'; 10 * 1024 * 1024], false);
    assert_eq!(kind, ErrorKind::InvalidData);
    assert!(text.contains("size cap"), "header: got {text}");

    // An entry's length-prefix line, after a well-formed header.
    let mut response = b"N 1 2\n".to_vec();
    response.extend_from_slice(&vec![b'x'; 10 * 1024 * 1024]);
    let (kind, text) = roster_error(&response, false);
    assert_eq!(kind, ErrorKind::InvalidData);
    assert!(text.contains("size cap"), "entry: got {text}");
}

#[test]
fn a_roster_carries_addresses_and_tokens() {
    let response: &[u8] = b"N 2 3 ignored\n6 4 3\nnode-aaddrtok\n1 1 2 9\n\xff:t2\n";
    for length in 0..response.len() {
        assert!(matches!(
            read_whole_roster(&response[..length], false),
            RosterRead::More { .. }
        ));
    }
    // Member by member, and then the same as at once.
    let mut reader = RosterReader::new();
    let mut received = response[..response.len() - 1].to_vec();
    match read_roster(&mut reader, &received, false) {
        RosterRead::More { used } => {
            assert_eq!(&received[..used], b"N 2 3 ignored\n6 4 3\nnode-aaddrtok\n");
            received.drain(..used);
        }
        other => panic!("unexpected {other:?}"),
    }
    received.push(b'\n');
    assert_eq!(
        read_roster(&mut reader, &received, false),
        read_whole_roster(response, false)
    );
    assert_eq!(
        read_whole_roster(response, false),
        RosterRead::Ready {
            members: vec![
                RosterEntry {
                    name: "node-a".to_string(),
                    addr: "addr".to_string(),
                    token: "tok".to_string(),
                },
                RosterEntry {
                    name: "\u{fffd}".to_string(),
                    addr: ":".to_string(),
                    token: "t2".to_string(),
                },
            ],
            replication: 3,
        }
    );
}

#[test]
fn a_roster_of_another_form_is_refused() {
    assert_eq!(
        roster_error(b"B\n", false),
        (
            ErrorKind::WouldBlock,
            "discovery is in its startup grace"
        )
    );
    for bad in [
        &b"N 1\n"[..],
        b"N 1 0\n",
        b"N 4097 1\n",
        b"A 1 2\n",
        b"N x 2\n",
        b"N 1 2\n1 1\n",
        b"N 1 2\n1025 1 1\n",
        b"N 1 2",
    ] {
        assert_eq!(
            roster_error(bad, true),
            (ErrorKind::InvalidData, "bad T response"),
            "{bad:?}"
        );
    }
    assert_eq!(
        roster_error(b"N 1 2\n1 1 1\nab", true).0,
        ErrorKind::UnexpectedEof
    );
}

#[test]
fn discovery_servers_are_asked_in_order_until_none_is_left() {
    assert_eq!(next_fetch(0, 2), FetchStep::Ask(0));
    assert_eq!(next_fetch(1, 2), FetchStep::Ask(1));
    assert_eq!(next_fetch(2, 2), FetchStep::GiveUp);
    assert_eq!(nothing_to_ask().text, "no discovery replicas configured");
}

#[test]
fn a_line_is_found_within_its_limit() {
    assert_eq!(read_line_capped(b"ab\ncd", false, 3), LineRead::Whole(2));
    assert_eq!(read_line_capped(b"ab\ncd", false, 2), LineRead::TooLong);
    assert_eq!(read_line_capped(b"ab", false, 2), LineRead::More);
    assert_eq!(read_line_capped(b"ab", true, 2), LineRead::Cut);
    assert_eq!(read_line_capped(b"abc", false, 2), LineRead::TooLong);
    assert_eq!(read_line_capped(b"", true, 2), LineRead::Cut);
}

fn node() -> NodeContext {
    NodeContext::new("test-node".to_string(), "tok".to_string())
}

fn roster(members: &[&str]) -> Option<(Vec<String>, usize)> {
    Some((members.iter().map(|name| name.to_string()).collect(), 2))
}

#[test]
fn a_heartbeat_ack_roster_from_the_primary_updates_known_ring() {
    let mut node = node();
    let change = adopt_roster(
        DiscoveryRole::Primary,
        &mut node,
        &roster(&["test-node", "node-b"]),
        1,
        0,
    );
    assert!(change.is_none(), "the first membership drops nobody");
    let known = node.known_ring.as_ref().unwrap();
    assert_eq!(
        known.ring.ring.nodes().to_vec(),
        vec!["node-b".to_string(), "test-node".to_string()]
    );
    assert_eq!(known.replication, 2);

    let change = adopt_roster(
        DiscoveryRole::Primary,
        &mut node,
        &roster(&["test-node"]),
        2,
        0,
    );
    assert!(change.is_some(), "an eviction calls for new copies");
    let change = adopt_roster(
        DiscoveryRole::Primary,
        &mut node,
        &roster(&["test-node", "node-c"]),
        3,
        0,
    );
    assert!(change.is_none(), "a join drops nobody");
    assert!(adopt_roster(DiscoveryRole::Primary, &mut node, &None, 4, 0).is_none());
    assert_eq!(node.known_ring.as_ref().unwrap().ring.id, 3);
}

#[test]
fn a_heartbeat_ack_roster_from_a_standby_is_ignored() {
    let mut node = node();
    adopt_roster(
        DiscoveryRole::Standby,
        &mut node,
        &roster(&["test-node", "node-b"]),
        1,
        0,
    );
    assert!(node.known_ring.is_none());
}

#[test]
fn a_heartbeat_reports_the_replication_factor_once_known_ring_is_set() {
    let mut node = node();
    assert_eq!(node.heartbeat(), b"H 9 0 3\ntest-nodetok".to_vec());
    adopt_roster(
        DiscoveryRole::Primary,
        &mut node,
        &roster(&["test-node"]),
        1,
        0,
    );
    assert_eq!(node.heartbeat(), b"H 9 2 3\ntest-nodetok".to_vec());
}

fn feed(
    registration: &mut Registration,
    promoted: &mut bool,
    has_secret: bool,
    events: &[RegistrationEvent],
) -> RegistrationAction {
    for event in events {
        registration.step(event, has_secret, promoted);
    }
    registration.next()
}

#[test]
fn send_heartbeats_sends_periodic_heartbeats_on_one_connection() {
    let mut promoted = false;
    let mut registration = Registration::new(discovery_role(0), promoted);
    assert_eq!(registration.next(), RegistrationAction::Connect);
    assert_eq!(
        feed(
            &mut registration,
            &mut promoted,
            false,
            &[RegistrationEvent::Connected]
        ),
        RegistrationAction::Register
    );
    assert_eq!(
        registration.message(&node(), 8356),
        b"J 9 8356 3\ntest-nodetok".to_vec()
    );
    assert_eq!(
        feed(
            &mut registration,
            &mut promoted,
            false,
            &[RegistrationEvent::Sent, RegistrationEvent::Reply(*b"R\n")]
        ),
        RegistrationAction::Beat
    );
    assert!(promoted);
    for _ in 0..3 {
        assert_eq!(
            feed(
                &mut registration,
                &mut promoted,
                false,
                &[
                    RegistrationEvent::Sent,
                    RegistrationEvent::Acked,
                    RegistrationEvent::Waited
                ]
            ),
            RegistrationAction::Beat
        );
    }
}

#[test]
fn a_reconnection_after_promotion_announces_instead_of_rejoining() {
    let mut promoted = true;
    let mut registration = Registration::new(DiscoveryRole::Primary, promoted);
    feed(
        &mut registration,
        &mut promoted,
        true,
        &[
            RegistrationEvent::Connected,
            RegistrationEvent::AuthReply(*b"Od\n"),
        ],
    );
    assert_eq!(registration.next(), RegistrationAction::Register);
    assert_eq!(
        registration.message(&node(), 8356),
        b"P 9 8356 3\ntest-nodetok".to_vec()
    );
}

#[test]
fn a_standby_discovery_receives_an_announce_only_after_promotion() {
    let mut promoted = false;
    let mut registration = Registration::new(discovery_role(1), promoted);
    assert_eq!(
        feed(
            &mut registration,
            &mut promoted,
            false,
            &[RegistrationEvent::Woken, RegistrationEvent::Woken]
        ),
        RegistrationAction::AwaitPromotion
    );
    promoted = true;
    assert_eq!(
        feed(
            &mut registration,
            &mut promoted,
            false,
            &[RegistrationEvent::Woken, RegistrationEvent::Connected]
        ),
        RegistrationAction::Register
    );
    assert!(!registration.joining);
    let mut abandoned = Registration::new(DiscoveryRole::Standby, false);
    abandoned.step(&RegistrationEvent::PromoterGone, false, &mut false);
    assert_eq!(abandoned.next(), RegistrationAction::Stop);
}

#[test]
fn send_heartbeats_redials_when_the_ack_never_arrives() {
    let mut promoted = true;
    let mut registration = Registration {
        role: DiscoveryRole::Primary,
        phase: Phase::Acking,
        joining: false,
    };
    assert_eq!(
        feed(
            &mut registration,
            &mut promoted,
            false,
            &[RegistrationEvent::Failed]
        ),
        RegistrationAction::Wait
    );
    assert_eq!(
        feed(
            &mut registration,
            &mut promoted,
            false,
            &[RegistrationEvent::Waited]
        ),
        RegistrationAction::Connect
    );
}

#[test]
fn send_heartbeats_stops_immediately_when_already_shut_down() {
    let mut promoted = false;
    let mut registration = Registration::new(DiscoveryRole::Primary, promoted);
    assert_eq!(
        feed(
            &mut registration,
            &mut promoted,
            false,
            &[RegistrationEvent::Shutdown, RegistrationEvent::Connected]
        ),
        RegistrationAction::Stop
    );
}

#[test]
fn only_an_explicit_refusal_rejects_the_secret() {
    assert_eq!(auth_verdict(b"Od\n"), AuthVerdict::Accepted);
    assert_eq!(auth_verdict(b"Ed\n"), AuthVerdict::Rejected);
    assert_eq!(auth_verdict(b"\x15\x03\x03"), AuthVerdict::Unexpected);
    let mut promoted = false;
    let mut registration = Registration::new(DiscoveryRole::Primary, promoted);
    feed(
        &mut registration,
        &mut promoted,
        true,
        &[
            RegistrationEvent::Connected,
            RegistrationEvent::AuthReply(*b"Ed\n"),
        ],
    );
    assert_eq!(registration.phase, Phase::Resting);
}

#[test]
fn answers_of_another_exchange_are_refused() {
    assert!(check_auth_ack(AuthPeer::Node, b"On\n").is_ok());
    let error = check_auth_ack(AuthPeer::Node, b"Od\n").unwrap_err();
    assert_eq!(error.kind, ErrorKind::PermissionDenied);
    assert_eq!(error.text, "joining node rejected the auth secret");
    let error = check_auth_ack(AuthPeer::Discovery, b"Ed\n").unwrap_err();
    assert_eq!(error.text, "discovery server rejected the auth secret");
    assert!(check_completion_ack(b"A\n").is_ok());
    assert_eq!(
        check_completion_ack(b"R\n").unwrap_err().text,
        "discovery server did not acknowledge C"
    );
    assert!(check_leave_ack(b"R\n").is_ok());
    assert_eq!(
        check_leave_ack(b"A\n").unwrap_err().text,
        "discovery did not acknowledge the leave"
    );
}
