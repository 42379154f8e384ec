//! The certificates and the private key that a node finds in PEM files.
use vstd::prelude::*;

use rustls::pki_types::PrivateKeyDer;

use crate::fault::ErrorKind;

verus! {

#[verifier::external_type_specification]
#[verifier::external_body]
pub struct ExPrivateKeyDer<'a>(rustls::pki_types::PrivateKeyDer<'a>);

/// The views of a list of byte strings.
pub open spec fn byte_views(strings: Seq<Vec<u8>>) -> Seq<Seq<u8>> {
    strings.map_values(|bytes: Vec<u8>| bytes@)
}

/// The certificates in PEM text, in order, or what is wrong with the text.
pub uninterp spec fn pem_certificates(pem: Seq<u8>) -> Result<Seq<Seq<u8>>, Seq<char>>;

/// The first private key in PEM text, if there is one, or what is wrong with the
/// text up to it.
pub uninterp spec fn pem_private_key(pem: Seq<u8>) -> Result<
    Option<PrivateKeyDer<'static>>,
    Seq<char>,
>;

/// Calls `rustls_pemfile::certs` on bytes in memory and collects what it yields,
/// up to the first error. The bytes of the certificates, or the text of the
/// error, depend on the bytes read alone.
#[verifier::external_body]
fn certificates_in(pem: &[u8]) -> (certificates: Result<Vec<Vec<u8>>, String>)
    ensures
        match certificates {
            Ok(found) => pem_certificates(pem@) == Ok::<Seq<Seq<u8>>, Seq<char>>(
                byte_views(found@),
            ),
            Err(cause) => pem_certificates(pem@) == Err::<Seq<Seq<u8>>, Seq<char>>(cause@),
        },
{
    let mut rest = pem;
    let found: Result<Vec<Vec<u8>>, _> = rustls_pemfile::certs(&mut rest).map(
        |certificate| certificate.map(|der| der.to_vec()),
    ).collect();
    found.map_err(|error| error.to_string())
}

/// Calls `rustls_pemfile::private_key` on bytes in memory. The key, that there is
/// none, or the text of the error, depends on the bytes read alone.
#[verifier::external_body]
fn private_key_in(pem: &[u8]) -> (key: Result<Option<PrivateKeyDer<'static>>, String>)
    ensures
        match key {
            Ok(found) => pem_private_key(pem@) == Ok::<
                Option<PrivateKeyDer<'static>>,
                Seq<char>,
            >(found),
            Err(cause) => pem_private_key(pem@) == Err::<
                Option<PrivateKeyDer<'static>>,
                Seq<char>,
            >(cause@),
        },
{
    let mut rest = pem;
    rustls_pemfile::private_key(&mut rest).map_err(|error| error.to_string())
}

/// Text that is no PEM.
#[derive(Debug, PartialEq, Eq)]
pub struct UnreadablePem {
    pub cause: String,
}

impl UnreadablePem {
    /// The kind of error that this is.
    pub fn kind(&self) -> (kind: ErrorKind)
        ensures
            kind == ErrorKind::InvalidData,
    {
        ErrorKind::InvalidData
    }
}

/// Why no private key was found.
#[derive(Debug, PartialEq, Eq)]
pub enum KeyFault {
    /// The text is sound and holds no private key.
    Missing,
    Unreadable(UnreadablePem),
}

impl KeyFault {
    /// The kind of error that this is.
    pub fn kind(&self) -> (kind: ErrorKind)
        ensures
            kind == ErrorKind::InvalidData,
    {
        match self {
            KeyFault::Missing => ErrorKind::InvalidData,
            KeyFault::Unreadable(fault) => fault.kind(),
        }
    }
}

/// The chain of certificates in PEM text, in order. Sections of other kinds are
/// passed over; text without a certificate has an empty chain.
pub fn certificates_from(pem: &[u8]) -> (chain: Result<Vec<Vec<u8>>, UnreadablePem>)
    ensures
        match pem_certificates(pem@) {
            Ok(found) => chain matches Ok(certificates) && byte_views(certificates@) == found,
            Err(cause) => chain matches Err(fault) && fault.cause@ == cause,
        },
{
    checked_certificates(certificates_in(pem))
}

/// What becomes of certificates that were looked for.
pub fn checked_certificates(found: Result<Vec<Vec<u8>>, String>) -> (chain: Result<
    Vec<Vec<u8>>,
    UnreadablePem,
>)
    ensures
        match found {
            Ok(certificates) => chain == Ok::<Vec<Vec<u8>>, UnreadablePem>(certificates),
            Err(cause) => chain matches Err(fault) && fault.cause@ == cause@,
        },
{
    match found {
        Ok(certificates) => Ok(certificates),
        Err(cause) => Err(UnreadablePem { cause }),
    }
}

/// The first private key in PEM text; there has to be one.
pub fn private_key_from(pem: &[u8]) -> (key: Result<PrivateKeyDer<'static>, KeyFault>)
    ensures
        match pem_private_key(pem@) {
            Ok(Some(found)) => key == Ok::<PrivateKeyDer<'static>, KeyFault>(found),
            Ok(None) => key matches Err(KeyFault::Missing),
            Err(cause) => key matches Err(KeyFault::Unreadable(fault)) && fault.cause@ == cause,
        },
{
    required_key(private_key_in(pem))
}

/// What becomes of a private key that was looked for.
pub fn required_key(found: Result<Option<PrivateKeyDer<'static>>, String>) -> (key: Result<
    PrivateKeyDer<'static>,
    KeyFault,
>)
    ensures
        match found {
            Ok(Some(present)) => key == Ok::<PrivateKeyDer<'static>, KeyFault>(present),
            Ok(None) => key matches Err(KeyFault::Missing),
            Err(cause) => key matches Err(KeyFault::Unreadable(fault)) && fault.cause@ == cause@,
        },
{
    match found {
        Ok(Some(present)) => Ok(present),
        Ok(None) => Err(KeyFault::Missing),
        Err(cause) => Err(KeyFault::Unreadable(UnreadablePem { cause })),
    }
}

} // verus!
