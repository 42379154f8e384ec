//! The authorities whose certificates a node trusts when it opens a connection:
//! those of a PEM file, and no others.
use vstd::prelude::*;

use rustls::pki_types::CertificateDer;
use rustls::RootCertStore;

use crate::fault::ErrorKind;
use crate::pem::byte_views;
use crate::pem::certificates_from;
use crate::pem::pem_certificates;
use crate::pem::UnreadablePem;

verus! {

#[verifier::external_type_specification]
#[verifier::external_body]
pub struct ExRootCertStore(rustls::RootCertStore);

/// What is trusted of an authority: its subject, its public key, and what names
/// it may speak for, each as it is encoded.
pub struct Anchor {
    pub subject: Seq<u8>,
    pub key: Seq<u8>,
    pub names: Option<Seq<u8>>,
}

/// The authorities that a store holds, in the order in which they were added.
pub uninterp spec fn store_anchors(store: RootCertStore) -> Seq<Anchor>;

/// The authority that a certificate stands for, or why it stands for none.
pub uninterp spec fn anchor_of(certificate: Seq<u8>) -> Result<Anchor, Seq<char>>;

/// Calls `RootCertStore::empty`, which makes a store without any authority: that
/// of the system has no part in it.
#[verifier::external_body]
fn empty_store() -> (store: RootCertStore)
    ensures
        store_anchors(store) == Seq::<Anchor>::empty(),
{
    RootCertStore::empty()
}

/// Calls `RootCertStore::add` on the bytes of a certificate. Whether it stands
/// for an authority, and for which, or the text of the error, depends on the
/// bytes alone. One that does is added behind the others; else the store stays
/// as it is.
#[verifier::external_body]
fn add_certificate(store: &mut RootCertStore, certificate: &[u8]) -> (added: Result<(), String>)
    ensures
        match anchor_of(certificate@) {
            Ok(anchor) => added is Ok && store_anchors(*final(store)) == store_anchors(
                *old(store),
            ).push(anchor),
            Err(cause) => (added matches Err(text) && text@ == cause) && store_anchors(
                *final(store),
            ) == store_anchors(*old(store)),
        },
{
    store.add(CertificateDer::from(certificate)).map_err(|error| error.to_string())
}

/// Why no authorities can be trusted.
#[derive(Debug, PartialEq, Eq)]
pub enum RootFault {
    Unreadable(UnreadablePem),
    /// A certificate that stands for no authority, and what is wrong with it.
    Invalid(String),
}

impl RootFault {
    /// The kind of error that this is.
    pub fn kind(&self) -> (kind: ErrorKind)
        ensures
            kind == ErrorKind::InvalidData,
    {
        match self {
            RootFault::Unreadable(fault) => fault.kind(),
            RootFault::Invalid(_) => ErrorKind::InvalidData,
        }
    }
}

/// The authorities of `found` and of the certificates that follow, in order, or
/// what is wrong with the first of these that stands for none.
pub open spec fn anchors_from(found: Seq<Anchor>, rest: Seq<Seq<u8>>) -> Result<
    Seq<Anchor>,
    Seq<char>,
>
    decreases rest.len(),
{
    if rest.len() == 0 {
        Ok(found)
    } else {
        match anchor_of(rest[0]) {
            Ok(anchor) => anchors_from(found.push(anchor), rest.skip(1)),
            Err(cause) => Err(cause),
        }
    }
}

/// A store of the authorities that certificates stand for. Each has to stand for
/// one.
pub fn roots_of(certificates: &Vec<Vec<u8>>) -> (roots: Result<RootCertStore, RootFault>)
    ensures
        match anchors_from(Seq::empty(), byte_views(certificates@)) {
            Ok(anchors) => roots matches Ok(store) && store_anchors(store) == anchors,
            Err(cause) => roots matches Err(RootFault::Invalid(text)) && text@ == cause,
        },
{
    let mut store = empty_store();
    let mut index: usize = 0;
    let ghost chain = byte_views(certificates@);
    assert(chain.skip(0) =~= chain);
    while index < certificates.len()
        invariant
            index <= certificates.len(),
            chain == byte_views(certificates@),
            anchors_from(Seq::empty(), chain) == anchors_from(
                store_anchors(store),
                chain.skip(index as int),
            ),
        decreases certificates.len() - index,
    {
        assert(chain.skip(index as int)[0] == certificates@[index as int]@);
        assert(chain.skip(index as int).skip(1) =~= chain.skip(index + 1));
        match add_certificate(&mut store, certificates[index].as_slice()) {
            Ok(()) => {},
            Err(cause) => {
                return Err(RootFault::Invalid(cause));
            },
        }
        index += 1;
    }
    Ok(store)
}

/// The authorities to trust, from PEM text: those of its certificates, and no
/// others.
pub fn trusted_roots(pem: &[u8]) -> (roots: Result<RootCertStore, RootFault>)
    ensures
        match pem_certificates(pem@) {
            Err(cause) => roots matches Err(RootFault::Unreadable(fault)) && fault.cause@ == cause,
            Ok(chain) => match anchors_from(Seq::empty(), chain) {
                Ok(anchors) => roots matches Ok(store) && store_anchors(store) == anchors,
                Err(cause) => roots matches Err(RootFault::Invalid(text)) && text@ == cause,
            },
        },
{
    match certificates_from(pem) {
        Ok(certificates) => roots_of(&certificates),
        Err(fault) => Err(RootFault::Unreadable(fault)),
    }
}

/// Whether the authorities are those of the certificates, one for each, in order.
pub open spec fn stand_for(certificates: Seq<Seq<u8>>, anchors: Seq<Anchor>) -> bool {
    &&& anchors.len() == certificates.len()
    &&& forall|i: int|
        0 <= i < certificates.len() ==> anchor_of(#[trigger] certificates[i]) == Ok::<
            Anchor,
            Seq<char>,
        >(anchors[i])
}

/// Whether the certificate at `place` is the first that stands for no authority.
pub open spec fn refused_at(certificates: Seq<Seq<u8>>, place: int, cause: Seq<char>) -> bool {
    &&& 0 <= place < certificates.len()
    &&& anchor_of(certificates[place]) == Err::<Anchor, Seq<char>>(cause)
    &&& forall|i: int| 0 <= i < place ==> anchor_of(#[trigger] certificates[i]) is Ok
}

proof fn lemma_anchors_from(found: Seq<Anchor>, done: Seq<Seq<u8>>, rest: Seq<Seq<u8>>)
    requires
        stand_for(done, found),
    ensures
        anchors_from(found, rest) matches Ok(anchors) ==> stand_for(done + rest, anchors),
        anchors_from(found, rest) matches Err(cause) ==> exists|i: int| #[trigger]
            refused_at(done + rest, i, cause),
    decreases rest.len(),
{
    if rest.len() == 0 {
        assert(done + rest =~= done);
    } else {
        assert((done + rest)[done.len() as int] == rest[0]);
        match anchor_of(rest[0]) {
            Ok(anchor) => {
                let more = done.push(rest[0]);
                assert(more + rest.skip(1) =~= done + rest);
                lemma_anchors_from(found.push(anchor), more, rest.skip(1));
            },
            Err(_) => {
                assert forall|i: int| 0 <= i < done.len() implies anchor_of(
                    #[trigger] (done + rest)[i],
                ) is Ok by {
                    assert((done + rest)[i] == done[i]);
                }
                let cause = anchors_from(found, rest)->Err_0;
                assert(refused_at(done + rest, done.len() as int, cause));
            },
        }
    }
}

/// Only the authorities of the file are trusted, and all of them are: the store
/// has one for each certificate, in order, and nothing else. There is no store if
/// a certificate stands for no authority; the first such one says why.
pub proof fn law_only_the_authorities_of_the_file_are_trusted(certificates: Seq<Seq<u8>>)
    ensures
        anchors_from(Seq::empty(), certificates) matches Ok(anchors) ==> stand_for(
            certificates,
            anchors,
        ),
        anchors_from(Seq::empty(), certificates) matches Err(cause) ==> exists|i: int| #[trigger]
            refused_at(certificates, i, cause),
{
    lemma_anchors_from(Seq::empty(), Seq::empty(), certificates);
    assert(Seq::<Seq<u8>>::empty() + certificates =~= certificates);
}

} // verus!
