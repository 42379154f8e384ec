use nanocached::fault::ErrorKind;
use nanocached::forward::is_ack;
use nanocached::forward::AuthPeer;
use nanocached::forward::ForwardedWrite;
use nanocached::key::Key;
use nanocached::message::announce_message;
use nanocached::message::auth_message;
use nanocached::message::complete_message;
use nanocached::message::delete_message;
use nanocached::message::from_millis;
use nanocached::message::from_secs;
use nanocached::message::handoff_delete_message;
use nanocached::message::handoff_message;
use nanocached::message::heartbeat_message;
use nanocached::message::join_message;
use nanocached::message::leave_message;
use nanocached::message::roster_message;
use nanocached::message::set_message;
use nanocached::message::ClearScope;

fn key(name: &[u8]) -> Key {
    Key::unnamespaced(name.to_vec())
}

#[test]
fn clear_scope_messages_are_the_c_and_f_frames() {
    assert_eq!(
        ClearScope::Namespace(b"users".to_vec()).message(),
        b"c 5\nusers".to_vec()
    );
    assert_eq!(ClearScope::All.message(), b"F\n".to_vec());
}

#[test]
fn heartbeat_message_declares_the_name_length_before_the_name() {
    assert_eq!(
        heartbeat_message("some-name", Some(2), "tk-some-name"),
        b"H 9 2 12\nsome-nametk-some-name".to_vec()
    );
}

#[test]
fn heartbeat_message_encodes_an_unknown_replication_belief_as_zero() {
    assert_eq!(
        heartbeat_message("some-name", None, "tk-some-name"),
        b"H 9 0 12\nsome-nametk-some-name".to_vec()
    );
}

#[test]
fn join_message_declares_the_name_length_and_the_port() {
    assert_eq!(
        join_message("some-name", 8356, "tk-some-name"),
        b"J 9 8356 12\nsome-nametk-some-name".to_vec()
    );
}

#[test]
fn announce_message_is_the_p_frame() {
    assert_eq!(
        announce_message("some-name", 8356, "tk-some-name"),
        b"P 9 8356 12\nsome-nametk-some-name".to_vec()
    );
}

#[test]
fn set_message_without_a_ttl_omits_the_third_header_field() {
    assert_eq!(
        set_message(&key(b"name"), b"Alice", None),
        b"S 4 5\nnameAlice".to_vec()
    );
}

#[test]
fn set_message_with_a_ttl_rounds_down_to_whole_seconds() {
    assert_eq!(
        set_message(&key(b"name"), b"Alice", Some(from_millis(4900))),
        b"S 4 5 4\nnameAlice".to_vec()
    );
}

#[test]
fn set_message_for_a_namespaced_key_uses_the_lowercase_frame() {
    let namespaced = Key::new(b"users".to_vec(), b"name".to_vec());
    assert_eq!(
        set_message(&namespaced, b"Alice", Some(from_secs(4))),
        b"s 5 4 5 4\nusersnameAlice".to_vec()
    );
    assert_eq!(delete_message(&namespaced), b"d 5 4\nusersname".to_vec());
    assert_eq!(delete_message(&key(b"name")), b"D 4\nname".to_vec());
}

#[test]
fn complete_message_declares_the_name_length_before_the_name() {
    assert_eq!(
        complete_message("some-name", "joiner", "tk-some-name"),
        b"C 9 6 12\nsome-namejoinertk-some-name".to_vec()
    );
}

#[test]
fn handoff_message_leads_with_the_token() {
    assert_eq!(
        handoff_message(&key(b"name"), b"v1", None, false, "tok-peer"),
        b"U 0 4 2 8\ntok-peernamev1".to_vec()
    );
    assert_eq!(
        handoff_message(
            &Key::new(b"users".to_vec(), b"name".to_vec()),
            b"v1",
            Some(from_secs(30)),
            true,
            "tok-peer"
        ),
        b"U 5 4 2 8 30 A\ntok-peerusersnamev1".to_vec()
    );
}

#[test]
fn handoff_delete_message_leads_with_the_token() {
    assert_eq!(
        handoff_delete_message(&key(b"name"), "tok-peer"),
        b"u 0 4 8\ntok-peername".to_vec()
    );
}

#[test]
fn auth_leave_and_roster_messages_declare_their_lengths() {
    assert_eq!(auth_message(b"secret"), b"A 6\nsecret".to_vec());
    assert_eq!(
        leave_message("some-name", "tk-some-name"),
        b"V 9 12\nsome-nametk-some-name".to_vec()
    );
    assert_eq!(
        roster_message("some-name", "tk-some-name"),
        b"T 9 12\nsome-nametk-some-name".to_vec()
    );
}

#[test]
fn lengths_count_bytes_and_not_characters() {
    assert_eq!(
        leave_message("n\u{e9}", "t"),
        "V 3 1\nn\u{e9}t".as_bytes().to_vec()
    );
}

#[test]
fn each_peer_acknowledges_the_secret_in_its_own_way() {
    assert_eq!(&AuthPeer::Node.auth_ack(), b"On\n");
    assert_eq!(&AuthPeer::Discovery.auth_ack(), b"Od\n");
    assert!(AuthPeer::Discovery.accepted(b"Od\n"));
    assert!(!AuthPeer::Discovery.accepted(b"On\n"));
    assert_eq!(AuthPeer::Node.describe(), "joining node");
    assert_eq!(AuthPeer::Discovery.describe(), "discovery server");
}

#[test]
fn a_write_is_refused_unless_it_is_acknowledged_in_kind() {
    let name = key(b"name");
    let store = ForwardedWrite::Store {
        key: &name,
        value: b"v",
        ttl: None,
    };
    assert!(store.check_ack(b"S\n").is_ok());
    let error = store.check_ack(b"W\n").unwrap_err();
    assert_eq!(error.kind, ErrorKind::InvalidData);
    assert_eq!(
        error.text,
        "joining node did not acknowledge the transferred key"
    );
    assert_eq!(store.message(), b"S 4 1\nnamev".to_vec());
    let scope = ClearScope::All;
    let clear = ForwardedWrite::Clear(&scope);
    assert!(clear.check_ack(b"C\n").is_ok());
    assert!(clear.check_ack(b"S\n").is_err());
    let delete = ForwardedWrite::HandoffDelete {
        key: &name,
        token: "t",
    };
    assert!(delete.check_ack(b"D\n").is_ok());
    assert!(delete.check_ack(b"N\n").is_ok());
    assert_eq!(
        delete.check_ack(b"S\n").unwrap_err().text,
        "peer did not acknowledge the forwarded delete"
    );
    assert!(is_ack(b"S\n", b'S'));
    assert!(!is_ack(b"SS", b'S'));
}
