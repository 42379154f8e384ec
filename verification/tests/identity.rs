use rustls::pki_types::ServerName;

use nanocached::fault::ErrorKind;
use nanocached::node::NodeContext;
use nanocached::pem::certificates_from;
use nanocached::pem::checked_certificates;
use nanocached::pem::private_key_from;
use nanocached::pem::required_key;
use nanocached::pem::KeyFault;
use nanocached::tls::server_name_from_addr;
use nanocached::tls::tls_host;
use nanocached::trust::roots_of;
use nanocached::trust::trusted_roots;
use nanocached::trust::RootFault;

#[test]
fn server_name_from_addr_strips_brackets_from_a_bracketed_ipv6_host() {
    let name = server_name_from_addr("[::1]:8356").unwrap();

    assert_eq!(name, ServerName::try_from("::1").unwrap());
}

#[test]
fn server_name_from_addr_handles_a_full_bracketed_ipv6_host() {
    let name = server_name_from_addr("[2001:db8::1]:8356").unwrap();

    assert_eq!(name, ServerName::try_from("2001:db8::1").unwrap());
}

#[test]
fn server_name_from_addr_still_handles_a_plain_ipv4_host() {
    let name = server_name_from_addr("127.0.0.1:8356").unwrap();

    assert_eq!(name, ServerName::try_from("127.0.0.1").unwrap());
}

#[test]
fn server_name_from_addr_still_handles_a_dns_name() {
    let name = server_name_from_addr("node-a.example.com:8356").unwrap();

    assert_eq!(name, ServerName::try_from("node-a.example.com").unwrap());
}

#[test]
fn a_host_that_is_no_name_is_reported_as_it_was_read() {
    let error = server_name_from_addr("no such host:8356").unwrap_err();
    assert_eq!(error.host, "no such host");
    assert_eq!(error.kind(), ErrorKind::InvalidInput);
    assert_eq!(error.cause.to_string(), "invalid dns name");
}

fn section(label: &str, body: &str) -> String {
    format!("-----BEGIN {label}-----\n{body}\n-----END {label}-----\n")
}

#[test]
fn certificates_are_read_in_order() {
    let pem = [
        "a comment\n".to_string(),
        section("CERTIFICATE", "AQID"),
        section("PRIVATE KEY", "BAUG"),
        section("CERTIFICATE", "BwgJ"),
    ]
    .concat();
    assert_eq!(
        certificates_from(pem.as_bytes()).unwrap(),
        vec![vec![1, 2, 3], vec![7, 8, 9]]
    );
    assert!(certificates_from(b"").unwrap().is_empty());
    assert_eq!(
        checked_certificates(Ok(vec![vec![1]])).unwrap(),
        vec![vec![1]]
    );
}

#[test]
fn a_certificate_that_does_not_end_is_unreadable() {
    let fault = certificates_from(b"-----BEGIN CERTIFICATE-----\nAQID\n").unwrap_err();
    assert_eq!(fault.kind(), ErrorKind::InvalidData);
    assert!(fault.cause.contains("CERTIFICATE"), "{}", fault.cause);
    let fault = certificates_from(section("CERTIFICATE", "!").as_bytes()).unwrap_err();
    assert!(fault.cause.contains("InvalidCharacter"), "{}", fault.cause);
}

#[test]
fn the_first_private_key_is_taken() {
    let pem = [
        section("CERTIFICATE", "AQID"),
        section("PRIVATE KEY", "BAUG"),
        section("EC PRIVATE KEY", "BwgJ"),
    ]
    .concat();
    let key = private_key_from(pem.as_bytes()).unwrap();
    assert_eq!(key.secret_der(), &[4, 5, 6]);
    let again = required_key(Ok(Some(key))).unwrap();
    assert_eq!(again.secret_der(), &[4, 5, 6]);
}

#[test]
fn a_file_without_a_private_key_is_refused() {
    let fault = private_key_from(section("CERTIFICATE", "AQID").as_bytes()).unwrap_err();
    assert_eq!(fault, KeyFault::Missing);
    assert_eq!(fault.kind(), ErrorKind::InvalidData);
    assert_eq!(required_key(Ok(None)).unwrap_err(), KeyFault::Missing);
    let fault = private_key_from(section("PRIVATE KEY", "!").as_bytes()).unwrap_err();
    assert!(matches!(&fault, KeyFault::Unreadable(_)));
    assert_eq!(fault.kind(), ErrorKind::InvalidData);
}

#[test]
fn the_host_is_what_stands_before_the_last_colon() {
    assert_eq!(tls_host("host"), "host");
    assert_eq!(tls_host("host:1:2"), "host:1");
    assert_eq!(tls_host("[]:1"), "");
    assert_eq!(tls_host("[:1"), "[");
    assert_eq!(tls_host("[host"), "[host");
    assert_eq!(tls_host(":1"), "");
    assert_eq!(tls_host(""), "");
}

#[test]
fn a_fresh_identity_is_made_of_two_random_identifiers() {
    let node = NodeContext::with_fresh_identity();
    let other = NodeContext::with_fresh_identity();
    assert_ne!(node.name, node.token);
    assert_ne!(node.name, other.name);
    for text in [&node.name, &node.token] {
        assert_eq!(text.len(), 36);
        for (place, character) in text.chars().enumerate() {
            if [8, 13, 18, 23].contains(&place) {
                assert_eq!(character, '-');
            } else {
                assert!(character.is_ascii_digit() || ('a'..='f').contains(&character));
            }
        }
        assert_eq!(text.as_bytes()[14], b'4');
    }
    assert!(node.known_ring.is_none());
    assert!(node.active_migration.is_none());
    assert!(node.leaving.is_none());
}

fn base64(bytes: &[u8]) -> String {
    let digits = b"ABCDEFGHIJKLMNOPQRSTUVWXYZabcdefghijklmnopqrstuvwxyz0123456789+/";
    let mut text = String::new();
    for chunk in bytes.chunks(3) {
        let mut group = [0u8; 3];
        group[..chunk.len()].copy_from_slice(chunk);
        let bits = u32::from_be_bytes([0, group[0], group[1], group[2]]);
        for place in 0..4 {
            if place <= chunk.len() {
                text.push(digits[(bits >> (18 - 6 * place)) as usize & 63] as char);
            } else {
                text.push('=');
            }
        }
    }
    text
}

fn encoded(tag: u8, parts: &[&[u8]]) -> Vec<u8> {
    let body = parts.concat();
    let mut bytes = vec![tag, body.len() as u8];
    bytes.extend_from_slice(&body);
    bytes
}

/// A certificate with nothing in it but a subject and a key.
fn certificate(subject: &[u8], key: &[u8]) -> Vec<u8> {
    let version = encoded(0xa0, &[&encoded(2, &[&[2]])]);
    let serial = encoded(2, &[&[1]]);
    let empty = encoded(0x30, &[]);
    let subject = encoded(0x30, &[subject]);
    let key = encoded(0x30, &[key]);
    let body = encoded(
        0x30,
        &[&version, &serial, &empty, &empty, &empty, &subject, &key],
    );
    let signature = encoded(3, &[&[0, 1]]);
    encoded(0x30, &[&body, &empty, &signature])
}

fn authority(subject: &[u8], key: &[u8]) -> String {
    section("CERTIFICATE", &base64(&certificate(subject, key)))
}

#[test]
fn only_the_authorities_of_the_file_are_trusted() {
    let pem = [
        authority(b"one", b"key one"),
        section("PRIVATE KEY", "BAUG"),
        authority(b"two", b"key two"),
    ]
    .concat();
    let store = trusted_roots(pem.as_bytes()).unwrap();
    let trusted: Vec<(&[u8], &[u8], bool)> = store
        .roots
        .iter()
        .map(|root| {
            (
                root.subject.as_ref(),
                root.subject_public_key_info.as_ref(),
                root.name_constraints.is_some(),
            )
        })
        .collect();
    assert_eq!(
        trusted,
        vec![
            (&b"one"[..], &b"key one"[..], false),
            (&b"two"[..], &b"key two"[..], false),
        ]
    );
    // Without a file's authorities nobody is trusted.
    assert!(trusted_roots(b"").unwrap().is_empty());
}

#[test]
fn a_certificate_that_stands_for_no_authority_is_refused() {
    let pem = [authority(b"one", b"key"), section("CERTIFICATE", "AQID")].concat();
    let fault = trusted_roots(pem.as_bytes()).unwrap_err();
    assert_eq!(fault.kind(), ErrorKind::InvalidData);
    match fault {
        RootFault::Invalid(cause) => assert!(cause.contains("BadEncoding"), "{cause}"),
        RootFault::Unreadable(_) => panic!("the text is sound"),
    }
    let chain = vec![certificate(b"one", b"key"), vec![1, 2, 3]];
    assert!(matches!(roots_of(&chain), Err(RootFault::Invalid(_))));
    assert_eq!(roots_of(&chain[..1].to_vec()).unwrap().len(), 1);

    let fault = trusted_roots(b"-----BEGIN CERTIFICATE-----\nAQID\n").unwrap_err();
    assert_eq!(fault.kind(), ErrorKind::InvalidData);
    assert!(matches!(fault, RootFault::Unreadable(_)));
}
