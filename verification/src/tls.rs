//! The name under which a peer's certificate is checked.
use vstd::prelude::*;

use rustls::pki_types::InvalidDnsNameError;
use rustls::pki_types::ServerName;

use crate::fault::ErrorKind;
use crate::scan::characters;
use crate::scan::text_of;

verus! {

#[verifier::external_type_specification]
#[verifier::external_body]
pub struct ExServerName<'a>(rustls::pki_types::ServerName<'a>);

#[verifier::external_type_specification]
#[verifier::external_body]
pub struct ExInvalidDnsNameError(rustls::pki_types::InvalidDnsNameError);

/// The server name that a host stands for, if it is a DNS name or an IP address.
pub uninterp spec fn parsed_server_name(host: Seq<char>) -> Option<ServerName<'static>>;

/// Calls `ServerName::try_from` on an owned host. Whether it succeeds, and with
/// which name, depends on the host alone.
#[verifier::external_body]
fn try_server_name(host: String) -> (name: Result<ServerName<'static>, InvalidDnsNameError>)
    ensures
        match parsed_server_name(host@) {
            Some(parsed) => name == Ok::<ServerName<'static>, InvalidDnsNameError>(parsed),
            None => name is Err,
        },
{
    ServerName::try_from(host)
}

/// Where the last colon of an address stands, if it has one.
pub open spec fn last_colon(addr: Seq<char>) -> Option<nat>
    decreases addr.len(),
{
    if addr.len() == 0 {
        None
    } else if addr.last() == ':' {
        Some((addr.len() - 1) as nat)
    } else {
        last_colon(addr.drop_last())
    }
}

/// The host of an address, without brackets around it.
pub open spec fn host_of(addr: Seq<char>) -> Seq<char> {
    let host = match last_colon(addr) {
        Some(place) => addr.take(place as int),
        None => addr,
    };
    if host.len() >= 2 && host[0] == '[' && host.last() == ']' {
        host.subrange(1, host.len() - 1)
    } else {
        host
    }
}

/// Takes the host out of an address. An IPv6 host stands in brackets, which are
/// no part of it.
pub fn tls_host(addr: &str) -> (host: String)
    ensures
        host@ == host_of(addr@),
{
    let found = characters(addr);
    let mut end: usize = found.len();
    assert(found@.take(end as int) =~= addr@);
    while end > 0 && found[end - 1] != ':'
        invariant
            end <= found.len(),
            found@ == addr@,
            last_colon(addr@) == last_colon(found@.take(end as int)),
        decreases end,
    {
        assert(found@.take(end as int).drop_last() =~= found@.take(end - 1));
        end -= 1;
    }
    let stop: usize = if end == 0 {
        found.len()
    } else {
        end - 1
    };
    let ghost host = match last_colon(addr@) {
        Some(place) => addr@.take(place as int),
        None => addr@,
    };
    assert(host =~= found@.subrange(0, stop as int));
    if stop >= 2 && found[0] == '[' && found[stop - 1] == ']' {
        let inner = text_of(&found, 1, stop - 1);
        assert(inner@ =~= host.subrange(1, host.len() - 1));
        inner
    } else {
        text_of(&found, 0, stop)
    }
}

/// A host that is neither a DNS name nor an IP address, and what was said of it.
#[derive(Debug)]
pub struct InvalidServerName {
    pub host: String,
    pub cause: InvalidDnsNameError,
}

impl InvalidServerName {
    /// The kind of error that this is.
    pub fn kind(&self) -> (kind: ErrorKind)
        ensures
            kind == ErrorKind::InvalidInput,
    {
        ErrorKind::InvalidInput
    }
}

/// The server name of a peer at `addr`.
pub fn server_name_from_addr(addr: &str) -> (name: Result<
    ServerName<'static>,
    InvalidServerName,
>)
    ensures
        match parsed_server_name(host_of(addr@)) {
            Some(parsed) => name == Ok::<ServerName<'static>, InvalidServerName>(parsed),
            None => name matches Err(error) && error.host@ == host_of(addr@),
        },
{
    let host = tls_host(addr);
    checked_server_name(try_server_name(host.clone()), host)
}

/// What becomes of a host that was parsed.
pub fn checked_server_name(
    parsed: Result<ServerName<'static>, InvalidDnsNameError>,
    host: String,
) -> (name: Result<ServerName<'static>, InvalidServerName>)
    ensures
        match parsed {
            Ok(found) => name == Ok::<ServerName<'static>, InvalidServerName>(found),
            Err(cause) => name matches Err(error) && error.host@ == host@ && error.cause == cause,
        },
{
    match parsed {
        Ok(name) => Ok(name),
        Err(cause) => Err(InvalidServerName { host, cause }),
    }
}

/// The host of an address is what comes before the port; brackets around it are
/// no part of it, and a host without a port is taken as it is.
pub proof fn law_host_comes_before_the_port(host: Seq<char>, port: Seq<char>)
    requires
        forall|i: int| 0 <= i < port.len() ==> #[trigger] port[i] != ':',
    ensures
        !(host.len() >= 2 && host[0] == '[' && host.last() == ']') ==> host_of(
            host.push(':') + port,
        ) == host,
        host_of((seq!['['] + host).push(']').push(':') + port) == host,
        (forall|i: int| 0 <= i < host.len() ==> #[trigger] host[i] != ':') && !(host.len() >= 2
            && host[0] == '[' && host.last() == ']') ==> host_of(host) == host,
{
    lemma_last_colon(host, port);
    assert((host.push(':') + port).take(host.len() as int) =~= host);
    let bracketed = (seq!['['] + host).push(']');
    lemma_last_colon(bracketed, port);
    assert((bracketed.push(':') + port).take(bracketed.len() as int) =~= bracketed);
    assert(bracketed.subrange(1, bracketed.len() - 1) =~= host);
    assert(bracketed[0] == '[' && bracketed.last() == ']');
    if forall|i: int| 0 <= i < host.len() ==> #[trigger] host[i] != ':' {
        lemma_no_colon(host);
    }
}

proof fn lemma_last_colon(host: Seq<char>, port: Seq<char>)
    requires
        forall|i: int| 0 <= i < port.len() ==> #[trigger] port[i] != ':',
    ensures
        last_colon(host.push(':') + port) == Some(host.len()),
    decreases port.len(),
{
    let addr = host.push(':') + port;
    if port.len() == 0 {
        assert(addr.last() == ':');
    } else {
        assert(addr.last() == port[port.len() - 1]);
        assert(addr.drop_last() =~= host.push(':') + port.drop_last());
        assert forall|i: int| 0 <= i < port.drop_last().len() implies #[trigger] port.drop_last()[i]
            != ':' by {
            assert(port[i] != ':');
        }
        lemma_last_colon(host, port.drop_last());
    }
}

proof fn lemma_no_colon(addr: Seq<char>)
    requires
        forall|i: int| 0 <= i < addr.len() ==> #[trigger] addr[i] != ':',
    ensures
        last_colon(addr) is None,
    decreases addr.len(),
{
    if addr.len() > 0 {
        assert(addr[addr.len() - 1] != ':');
        assert forall|i: int| 0 <= i < addr.drop_last().len() implies #[trigger] addr.drop_last()[i]
            != ':' by {
            assert(addr[i] != ':');
        }
        lemma_no_colon(addr.drop_last());
    }
}

} // verus!
