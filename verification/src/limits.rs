//! Limits, and who is let in within them.
use std::collections::HashMap;
use vstd::prelude::*;

verus! {

/// The largest request a client may send, in bytes.
pub const MAX_REQUEST_SIZE: usize = 1_048_576;

pub const DEFAULT_MAX_CONNECTIONS: usize = 1024;

pub const DEFAULT_MAX_CONNECTIONS_PER_IP: usize = 256;

/// What the cache may hold by default, in bytes.
pub const MAX_CACHE_MEMORY_BYTES: usize = 268_435_456;

/// How long a connection may take to complete a request, in nanoseconds, as all
/// times here.
pub const IDLE_TIMEOUT: u128 = 60_000_000_000;

pub const WRITE_TIMEOUT: u128 = 10_000_000_000;

pub const FORWARDING_GRACE_BASE: u128 = 60_000_000_000;

pub const FORWARDING_GRACE_PER_ENTRY: u128 = 5_000_000;

pub const SWEEP_INTERVAL: u128 = 5_000_000_000;

pub const SHUTDOWN_TIMEOUT: u128 = 10_000_000_000;

pub const TLS_HANDSHAKE_TIMEOUT: u128 = 10_000_000_000;

/// The time one leg of an outbound exchange may take.
pub const OUTBOUND_IO_TIMEOUT: u128 = 10_000_000_000;

/// The time a forwarded write may take as a whole.
pub const FORWARD_TIMEOUT: u128 = 10_000_000_000;

pub const FORWARD_CHANNEL_CAPACITY: usize = 256;

/// How many forwards may wait for a place in the forward queue.
pub const MAX_PENDING_FORWARD_WAITERS: usize = 4096;

pub const ACCEPT_ERROR_BACKOFF: u128 = 100_000_000;

pub const READ_CHUNK_SIZE: usize = 1024;

/// How often a transfer or a forward is attempted.
pub const KEY_TRANSFER_ATTEMPTS: u32 = 3;

/// A request buffer larger than this is given back once what it holds fits.
pub const REQUEST_BUFFER_SHRINK_THRESHOLD: usize = 65_536;

/// The connections a node accepts.
#[derive(Clone, Copy, Debug, PartialEq, Eq)]
pub struct ConnectionLimits {
    pub max_connections: usize,
    pub max_connections_per_ip: usize,
}

impl Default for ConnectionLimits {
    fn default() -> (limits: ConnectionLimits)
        ensures
            limits.max_connections == DEFAULT_MAX_CONNECTIONS,
            limits.max_connections_per_ip == DEFAULT_MAX_CONNECTIONS_PER_IP,
    {
        ConnectionLimits {
            max_connections: DEFAULT_MAX_CONNECTIONS,
            max_connections_per_ip: DEFAULT_MAX_CONNECTIONS_PER_IP,
        }
    }
}

/// How long writes are forwarded to a node after `entries_sent` entries were
/// handed over to it.
pub open spec fn grace_after(entries_sent: nat) -> nat {
    FORWARDING_GRACE_BASE as nat + FORWARDING_GRACE_PER_ENTRY as nat * if entries_sent <= u32::MAX {
        entries_sent
    } else {
        u32::MAX as nat
    }
}

/// The forwarding grace: a minute, and five milliseconds for each entry sent,
/// of which at most `u32::MAX` count.
pub fn forwarding_grace(entries_sent: usize) -> (grace: u128)
    ensures
        grace == grace_after(entries_sent as nat),
{
    let counted: u128 = if entries_sent as u128 <= u32::MAX as u128 {
        entries_sent as u128
    } else {
        u32::MAX as u128
    };
    assert(FORWARDING_GRACE_PER_ENTRY * counted <= 5_000_000 * 0xffff_ffff) by (nonlinear_arith)
        requires
            counted <= 0xffff_ffff,
            FORWARDING_GRACE_PER_ENTRY == 5_000_000,
    ;
    FORWARDING_GRACE_BASE + FORWARDING_GRACE_PER_ENTRY * counted
}

/// A larger handoff never has a shorter grace, and none has less than the base.
pub proof fn law_grace_grows_with_the_handoff(fewer: nat, more: nat)
    requires
        fewer <= more,
    ensures
        FORWARDING_GRACE_BASE <= grace_after(fewer) <= grace_after(more),
{
    let a = if fewer <= u32::MAX {
        fewer
    } else {
        u32::MAX as nat
    };
    let b = if more <= u32::MAX {
        more
    } else {
        u32::MAX as nat
    };
    assert(5_000_000 * a <= 5_000_000 * b);
}

pub fn request_is_too_large(size: usize) -> (too_large: bool)
    ensures
        too_large == (size > MAX_REQUEST_SIZE),
{
    size > MAX_REQUEST_SIZE
}

/// Whether two byte strings are the same. Strings of one length are compared
/// to their ends, whatever they hold.
pub fn constant_time_eq(a: &[u8], b: &[u8]) -> (same: bool)
    ensures
        same == (a@ == b@),
{
    if a.len() != b.len() {
        return false;
    }
    let mut diff: u8 = 0;
    let mut index: usize = 0;
    while index < a.len()
        invariant
            a.len() == b.len(),
            index <= a.len(),
            diff == 0 <==> forall|i: int| 0 <= i < index ==> a@[i] == b@[i],
        decreases a.len() - index,
    {
        let x: u8 = a[index];
        let y: u8 = b[index];
        let before: u8 = diff;
        diff = before | (x ^ y);
        assert((before | (x ^ y)) == 0 <==> before == 0 && x == y) by (bit_vector);
        assert(a@[index as int] == x && b@[index as int] == y);
        index += 1;
    }
    assert(diff == 0 ==> a@ =~= b@);
    diff == 0
}

/// What kind of system the node runs on.
#[derive(Clone, Copy, Debug, PartialEq, Eq, Structural)]
pub enum Platform {
    Unix,
    Other,
}

/// Whether a failed accept says that no file descriptors are left, going by the
/// system's error code. Only Unix systems are known to tell (`ENFILE` and
/// `EMFILE`).
pub fn is_fd_exhaustion(platform: Platform, os_error: Option<i32>) -> (exhausted: bool)
    ensures
        exhausted == (platform == Platform::Unix && (os_error == Some(23i32) || os_error == Some(
            24i32,
        ))),
{
    match platform {
        Platform::Unix => match os_error {
            Some(code) => code == 23 || code == 24,
            None => false,
        },
        Platform::Other => false,
    }
}

/// Whether to pause after a failed accept: where descriptors are exhausted,
/// and after any failure on a system that cannot tell.
pub fn should_backoff_after_accept_error(platform: Platform, os_error: Option<i32>) -> (pause: bool)
    ensures
        pause == (platform == Platform::Other || os_error == Some(23i32) || os_error == Some(
            24i32,
        )),
{
    is_fd_exhaustion(platform, os_error) || match platform {
        Platform::Unix => false,
        Platform::Other => true,
    }
}

/// The address a connection comes from.
#[derive(Clone, Copy, Debug, PartialEq, Eq, Structural)]
pub enum SourceIp {
    V4(u32),
    V6(u128),
}

/// How many connections each source holds.
pub struct PerIpConnections {
    v4: HashMap<u32, usize>,
    v6: HashMap<u128, usize>,
}

impl PerIpConnections {
    /// The count kept for a source, if one is kept.
    pub closed spec fn count(self, source: SourceIp) -> Option<usize> {
        match source {
            SourceIp::V4(address) => if self.v4@.contains_key(address) {
                Some(self.v4@[address])
            } else {
                None
            },
            SourceIp::V6(address) => if self.v6@.contains_key(address) {
                Some(self.v6@[address])
            } else {
                None
            },
        }
    }

    /// The connections a source holds.
    pub open spec fn held(self, source: SourceIp) -> usize {
        match self.count(source) {
            Some(count) => count,
            None => 0,
        }
    }

    pub fn new() -> (counts: PerIpConnections)
        ensures
            forall|source: SourceIp| #[trigger] counts.count(source) is None,
    {
        PerIpConnections { v4: HashMap::new(), v6: HashMap::new() }
    }

    /// The count kept for a source, if one is kept.
    pub fn get(&self, source: SourceIp) -> (count: Option<usize>)
        ensures
            count == self.count(source),
    {
        broadcast use vstd::std_specs::hash::group_hash_axioms;

        match source {
            SourceIp::V4(address) => match self.v4.get(&address) {
                Some(count) => Some(*count),
                None => None,
            },
            SourceIp::V6(address) => match self.v6.get(&address) {
                Some(count) => Some(*count),
                None => None,
            },
        }
    }

    fn keep(&mut self, source: SourceIp, count: usize)
        ensures
            final(self).count(source) == Some(count),
            forall|other: SourceIp|
                other != source ==> #[trigger] final(self).count(other) == old(self).count(other),
    {
        broadcast use vstd::std_specs::hash::group_hash_axioms;

        match source {
            SourceIp::V4(address) => {
                self.v4.insert(address, count);
            },
            SourceIp::V6(address) => {
                self.v6.insert(address, count);
            },
        }
    }

    fn forget(&mut self, source: SourceIp)
        ensures
            final(self).count(source) is None,
            forall|other: SourceIp|
                other != source ==> #[trigger] final(self).count(other) == old(self).count(other),
    {
        broadcast use vstd::std_specs::hash::group_hash_axioms;

        match source {
            SourceIp::V4(address) => {
                self.v4.remove(&address);
            },
            SourceIp::V6(address) => {
                self.v6.remove(&address);
            },
        }
    }
}

/// A connection counted against its source. It is given back with
/// `PerIpConnectionGuard::release`.
#[derive(Debug)]
pub struct PerIpConnectionGuard {
    pub ip: SourceIp,
}

/// Counts one more connection of a source, unless it holds `cap` of them
/// already.
pub fn try_acquire_per_ip(counts: &mut PerIpConnections, ip: SourceIp, cap: usize) -> (guard: Option<
    PerIpConnectionGuard,
>)
    ensures
        guard is Some <==> old(counts).held(ip) < cap,
        guard matches Some(taken) ==> taken.ip == ip && final(counts).count(ip) == Some(
            (old(counts).held(ip) + 1) as usize,
        ),
        guard is None ==> final(counts).count(ip) == Some(old(counts).held(ip)),
        forall|other: SourceIp|
            other != ip ==> #[trigger] final(counts).count(other) == old(counts).count(other),
{
    let held: usize = match counts.get(ip) {
        Some(count) => count,
        None => 0,
    };
    if held >= cap {
        counts.keep(ip, held);
        return None;
    }
    counts.keep(ip, held + 1);
    Some(PerIpConnectionGuard { ip })
}

/// What is kept for a source once one of its connections ends: one fewer, and
/// nothing in place of a zero.
pub open spec fn after_release(count: Option<usize>) -> Option<usize> {
    match count {
        Some(held) => if held == 1 {
            None
        } else {
            Some((held - 1) as usize)
        },
        None => None,
    }
}

impl PerIpConnectionGuard {
    /// Gives the connection back.
    pub fn release(self, counts: &mut PerIpConnections)
        requires
            old(counts).count(self.ip) != Some(0usize),
        ensures
            final(counts).count(self.ip) == after_release(old(counts).count(self.ip)),
            forall|other: SourceIp|
                other != self.ip ==> #[trigger] final(counts).count(other) == old(counts).count(
                    other,
                ),
    {
        match counts.get(self.ip) {
            Some(count) => {
                if count == 1 {
                    counts.forget(self.ip);
                } else {
                    counts.keep(self.ip, count - 1);
                }
            },
            None => {},
        }
    }
}

/// A connection that was let in and then ends leaves its source with what it
/// held before.
pub proof fn law_release_undoes_acquire(before: PerIpConnections, ip: SourceIp, cap: usize)
    requires
        before.held(ip) < cap,
    ensures
        match after_release(Some((before.held(ip) + 1) as usize)) {
            Some(count) => count == before.held(ip),
            None => before.held(ip) == 0,
        },
{
}

/// What becomes of an accepted connection before anything is read from it.
#[derive(Debug)]
pub enum Admission {
    /// Served, over TLS if the node has a certificate.
    Serve { guard: PerIpConnectionGuard, tls: bool },
    /// Closed; without TLS it is told that the node is busy first.
    Refuse { tell_busy: bool },
}

/// Decides on an accepted connection. A permit must be free and the source must
/// be under its cap; the permit is looked at first, and no count changes
/// without one.
pub fn admit_connection(
    counts: &mut PerIpConnections,
    permit_free: bool,
    ip: SourceIp,
    max_connections_per_ip: usize,
    tls: bool,
) -> (admission: Admission)
    ensures
        admission is Serve <==> permit_free && old(counts).held(ip) < max_connections_per_ip,
        admission matches Admission::Serve { guard, tls: over_tls } ==> guard.ip == ip && over_tls
            == tls && final(counts).count(ip) == Some((old(counts).held(ip) + 1) as usize),
        admission matches Admission::Refuse { tell_busy } ==> tell_busy == !tls
            && final(counts).held(ip) == old(counts).held(ip),
        !permit_free ==> final(counts).count(ip) == old(counts).count(ip),
        forall|other: SourceIp|
            other != ip ==> #[trigger] final(counts).count(other) == old(counts).count(other),
{
    if !permit_free {
        return Admission::Refuse { tell_busy: !tls };
    }
    match try_acquire_per_ip(counts, ip, max_connections_per_ip) {
        Some(guard) => Admission::Serve { guard, tls },
        None => Admission::Refuse { tell_busy: !tls },
    }
}

/// The connections in use, of `max_connections`, while `available` permits are
/// free.
pub fn connections_in_use(max_connections: usize, available: usize) -> (used: usize)
    ensures
        used == if available <= max_connections {
            max_connections - available
        } else {
            0
        },
{
    max_connections.saturating_sub(available)
}

/// The grace is a minute without entries, grows by five milliseconds with each
/// entry, and does not grow any more once the number of entries is past what 32
/// bits can hold.
pub proof fn law_each_entry_adds_to_the_grace(entries: nat)
    ensures
        grace_after(0) == 60_000_000_000,
        entries < u32::MAX ==> grace_after(entries + 1) == grace_after(entries) + 5_000_000,
        entries >= u32::MAX ==> grace_after(entries) == grace_after(u32::MAX as nat),
{
}

/// A connection that ends gives one back: a source with more is left with one
/// fewer, and of one that held its last nothing is kept.
pub proof fn law_release_gives_one_back(held: usize)
    ensures
        held > 1 ==> after_release(Some(held)) == Some((held - 1) as usize),
        held == 1 ==> after_release(Some(held)) is None,
        after_release(None) is None,
{
}

/// What a source holds is the count that is kept for it, and nothing if none is
/// kept.
pub proof fn law_held_is_the_count_kept(counts: PerIpConnections, source: SourceIp, n: usize)
    ensures
        counts.count(source) == Some(n) ==> counts.held(source) == n,
        counts.count(source) is None ==> counts.held(source) == 0,
{
}

/// A request may have a mebibyte, and no more.
pub proof fn law_requests_are_bounded(size: usize, too_large: bool)
    requires
        call_ensures(request_is_too_large, (size,), too_large),
    ensures
        too_large <==> size > 1_048_576,
{
}

/// The connections in use and the free permits make up the limit.
pub proof fn law_permits_make_up_the_limit(max_connections: usize, available: usize, used: usize)
    requires
        call_ensures(connections_in_use, (max_connections, available), used),
        available <= max_connections,
    ensures
        used + available == max_connections,
{
}

/// Accepting pauses after an error just where the system has no descriptors left
/// or cannot tell.
pub proof fn law_accepting_pauses_without_descriptors(
    platform: Platform,
    os_error: Option<i32>,
    exhausted: bool,
    pause: bool,
)
    requires
        call_ensures(is_fd_exhaustion, (platform, os_error), exhausted),
        call_ensures(should_backoff_after_accept_error, (platform, os_error), pause),
    ensures
        exhausted ==> pause,
        platform is Unix ==> (pause <==> exhausted),
        platform is Other ==> pause && !exhausted,
        exhausted ==> os_error == Some(23i32) || os_error == Some(24i32),
        os_error is None ==> !exhausted,
{
}

/// A connection is served just if a permit is free and its source holds fewer
/// than it may; it is then counted, and only then. Other sources do not notice.
pub proof fn law_admission_counts_what_it_serves(
    counts: &mut PerIpConnections,
    permit_free: bool,
    ip: SourceIp,
    cap: usize,
    tls: bool,
    admission: Admission,
    other: SourceIp,
)
    requires
        call_ensures(admit_connection, (counts, permit_free, ip, cap, tls), admission),
    ensures
        admission is Serve <==> permit_free && old(counts).held(ip) < cap,
        admission is Serve ==> final(counts).held(ip) == old(counts).held(ip) + 1,
        !(admission is Serve) ==> final(counts).held(ip) == old(counts).held(ip),
        old(counts).held(ip) <= cap ==> final(counts).held(ip) <= cap,
        other != ip ==> final(counts).held(other) == old(counts).held(other),
        admission matches Admission::Refuse { tell_busy } ==> (tell_busy <==> !tls),
{
}

/// One source alone cannot take more than a quarter of the connections that a
/// node serves by default.
pub proof fn law_no_source_takes_all_connections()
    ensures
        DEFAULT_MAX_CONNECTIONS == 1024,
        4 * DEFAULT_MAX_CONNECTIONS_PER_IP == DEFAULT_MAX_CONNECTIONS,
{
}

} // verus!
