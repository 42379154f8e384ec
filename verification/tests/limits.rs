use std::io;

use nanocached::limits::admit_connection;
use nanocached::limits::connections_in_use;
use nanocached::limits::constant_time_eq;
use nanocached::limits::forwarding_grace;
use nanocached::limits::is_fd_exhaustion;
use nanocached::limits::request_is_too_large;
use nanocached::limits::should_backoff_after_accept_error;
use nanocached::limits::try_acquire_per_ip;
use nanocached::limits::Admission;
use nanocached::limits::PerIpConnections;
use nanocached::limits::Platform;
use nanocached::limits::SourceIp;
use nanocached::limits::DEFAULT_MAX_CONNECTIONS_PER_IP;
use nanocached::limits::MAX_CACHE_MEMORY_BYTES;
use nanocached::limits::MAX_REQUEST_SIZE;

const LOCALHOST: SourceIp = SourceIp::V4(0x7f00_0001);

#[test]
fn maximum_request_size_is_one_mebibyte() {
    assert_eq!(MAX_REQUEST_SIZE, 1_048_576);
}

#[test]
fn maximum_cache_memory_is_256_mebibytes() {
    assert_eq!(MAX_CACHE_MEMORY_BYTES, 268_435_456);
}

#[test]
fn fd_exhaustion_is_detected_for_emfile_and_enfile() {
    assert!(is_fd_exhaustion(
        Platform::Unix,
        io::Error::from_raw_os_error(24).raw_os_error()
    )); // EMFILE
    assert!(is_fd_exhaustion(
        Platform::Unix,
        io::Error::from_raw_os_error(23).raw_os_error()
    )); // ENFILE
}

#[test]
fn fd_exhaustion_is_not_reported_for_other_accept_errors() {
    assert!(!is_fd_exhaustion(
        Platform::Unix,
        io::Error::from(io::ErrorKind::ConnectionAborted).raw_os_error()
    ));
    assert!(!is_fd_exhaustion(
        Platform::Unix,
        io::Error::from_raw_os_error(103).raw_os_error()
    ));
}

#[test]
fn should_backoff_after_accept_error_matches_fd_exhaustion_on_unix() {
    assert!(should_backoff_after_accept_error(
        Platform::Unix,
        io::Error::from_raw_os_error(24).raw_os_error()
    ));
    assert!(!should_backoff_after_accept_error(
        Platform::Unix,
        io::Error::from(io::ErrorKind::ConnectionAborted).raw_os_error()
    ));
}

#[test]
fn should_backoff_after_accept_error_backs_off_on_every_error_on_non_unix() {
    assert!(!is_fd_exhaustion(
        Platform::Other,
        io::Error::from(io::ErrorKind::ConnectionAborted).raw_os_error()
    ));
    assert!(should_backoff_after_accept_error(
        Platform::Other,
        io::Error::from(io::ErrorKind::ConnectionAborted).raw_os_error()
    ));
}

#[test]
fn request_size_below_limit_is_allowed() {
    assert!(!request_is_too_large(MAX_REQUEST_SIZE - 1));
}

#[test]
fn request_size_at_limit_is_allowed() {
    assert!(!request_is_too_large(MAX_REQUEST_SIZE));
}

#[test]
fn request_size_above_limit_is_rejected() {
    assert!(request_is_too_large(MAX_REQUEST_SIZE + 1));
}

#[test]
fn constant_time_eq_matches_identical_byte_strings() {
    assert!(constant_time_eq(b"same-secret", b"same-secret"));
}

#[test]
fn constant_time_eq_rejects_different_content_of_the_same_length() {
    assert!(!constant_time_eq(b"secret-one", b"secret-two"));
}

#[test]
fn constant_time_eq_rejects_different_lengths() {
    assert!(!constant_time_eq(b"short", b"a much longer value"));
}

#[test]
fn constant_time_eq_matches_empty_byte_strings() {
    assert!(constant_time_eq(b"", b""));
    assert!(!constant_time_eq(b"", b"x"));
}

#[test]
fn try_acquire_per_ip_denies_once_the_cap_is_reached_and_frees_the_slot_on_drop() {
    let mut counts = PerIpConnections::new();

    let mut guards = Vec::new();
    for _ in 0..DEFAULT_MAX_CONNECTIONS_PER_IP {
        guards.push(
            try_acquire_per_ip(&mut counts, LOCALHOST, DEFAULT_MAX_CONNECTIONS_PER_IP)
                .expect("under the per-IP cap"),
        );
    }

    assert!(
        try_acquire_per_ip(&mut counts, LOCALHOST, DEFAULT_MAX_CONNECTIONS_PER_IP).is_none(),
        "the per-IP cap must reject a connection once DEFAULT_MAX_CONNECTIONS_PER_IP is reached"
    );

    // A different source IP has its own, independent budget.
    let other_ip = SourceIp::V4(0x0a00_0001);
    assert!(
        try_acquire_per_ip(&mut counts, other_ip, DEFAULT_MAX_CONNECTIONS_PER_IP).is_some()
    );

    // Releasing one guard frees its slot for the same IP again.
    guards.pop().unwrap().release(&mut counts);
    assert!(
        try_acquire_per_ip(&mut counts, LOCALHOST, DEFAULT_MAX_CONNECTIONS_PER_IP).is_some()
    );
}

#[test]
fn a_lowered_per_ip_cap_is_honored() {
    let mut counts = PerIpConnections::new();

    let _first = try_acquire_per_ip(&mut counts, LOCALHOST, 2).expect("first fits");
    let _second = try_acquire_per_ip(&mut counts, LOCALHOST, 2).expect("second fits");
    assert!(try_acquire_per_ip(&mut counts, LOCALHOST, 2).is_none());
}

#[test]
fn releasing_the_last_connection_of_a_source_forgets_it() {
    let mut counts = PerIpConnections::new();
    let v6 = SourceIp::V6(1);
    let guard = try_acquire_per_ip(&mut counts, v6, 1).unwrap();
    assert_eq!(counts.get(v6), Some(1));
    guard.release(&mut counts);
    assert_eq!(counts.get(v6), None);
}

#[test]
fn a_connection_without_a_free_permit_is_refused_and_counts_nothing() {
    let mut counts = PerIpConnections::new();
    assert!(matches!(
        admit_connection(&mut counts, false, LOCALHOST, 4, false),
        Admission::Refuse { tell_busy: true }
    ));
    assert!(matches!(
        admit_connection(&mut counts, false, LOCALHOST, 4, true),
        Admission::Refuse { tell_busy: false }
    ));
    assert_eq!(counts.get(LOCALHOST), None);
}

#[test]
fn a_connection_over_the_cap_of_its_source_is_refused() {
    let mut counts = PerIpConnections::new();
    let first = admit_connection(&mut counts, true, LOCALHOST, 1, true);
    assert!(matches!(first, Admission::Serve { tls: true, .. }));
    assert!(matches!(
        admit_connection(&mut counts, true, LOCALHOST, 1, true),
        Admission::Refuse { tell_busy: false }
    ));
    assert!(matches!(
        admit_connection(&mut counts, true, SourceIp::V4(9), 1, false),
        Admission::Serve { tls: false, .. }
    ));
}

#[test]
fn the_forwarding_grace_grows_with_the_entries_sent() {
    assert_eq!(forwarding_grace(0), 60_000_000_000);
    assert_eq!(forwarding_grace(1000), 65_000_000_000);
}

#[test]
fn connections_in_use_are_those_without_a_free_permit() {
    assert_eq!(connections_in_use(1024, 1000), 24);
    assert_eq!(connections_in_use(10, 12), 0);
}
