//! The short exchanges that a node begins: proving that it knows the shared
//! secret, reporting that a handoff is complete, and taking its leave.
use vstd::prelude::*;

use crate::fault::failure;
use crate::fault::ConnectionError;
use crate::fault::ErrorKind;
use crate::forward::AuthPeer;
use crate::forward::WriteView;
use crate::forward::acknowledges;
use crate::response::Response;
use crate::response::encoded;

verus! {

/// Judges what a peer answered to the shared secret. Each peer has its own
/// answer, so one that was mistaken for the other is found out.
pub fn check_auth_ack(peer: AuthPeer, ack: &[u8; 3]) -> (verdict: Result<(), ConnectionError>)
    ensures
        if ack@ == peer.ack() {
            verdict is Ok
        } else {
            verdict matches Err(error) && error.says(
                ErrorKind::PermissionDenied,
                match peer {
                    AuthPeer::Node => "joining node rejected the auth secret"@,
                    AuthPeer::Discovery => "discovery server rejected the auth secret"@,
                },
            )
        },
{
    if peer.accepted(ack) {
        return Ok(());
    }
    Err(
        match peer {
            AuthPeer::Node => failure(
                ErrorKind::PermissionDenied,
                "joining node rejected the auth secret",
            ),
            AuthPeer::Discovery => failure(
                ErrorKind::PermissionDenied,
                "discovery server rejected the auth secret",
            ),
        },
    )
}

/// Judges what a discovery server answered to the report of a complete handoff.
pub fn check_completion_ack(ack: &[u8; 2]) -> (verdict: Result<(), ConnectionError>)
    ensures
        if ack@ == seq![65u8, 10u8] {
            verdict is Ok
        } else {
            verdict matches Err(error) && error.says(
                ErrorKind::InvalidData,
                "discovery server did not acknowledge C"@,
            )
        },
{
    if ack[0] == 65 && ack[1] == 10 {
        assert(ack@ =~= seq![65u8, 10u8]);
        Ok(())
    } else {
        Err(failure(ErrorKind::InvalidData, "discovery server did not acknowledge C"))
    }
}

/// Judges what a discovery server answered to a leave.
pub fn check_leave_ack(ack: &[u8; 2]) -> (verdict: Result<(), ConnectionError>)
    ensures
        if ack@ == seq![82u8, 10u8] {
            verdict is Ok
        } else {
            verdict matches Err(error) && error.says(
                ErrorKind::InvalidData,
                "discovery did not acknowledge the leave"@,
            )
        },
{
    if ack[0] == 82 && ack[1] == 10 {
        assert(ack@ =~= seq![82u8, 10u8]);
        Ok(())
    } else {
        Err(failure(ErrorKind::InvalidData, "discovery did not acknowledge the leave"))
    }
}

/// No answer passes for that of another exchange: a peer, a discovery server
/// that confirms a registration or a leave, and one that acknowledges a report
/// all answer differently.
pub proof fn law_answers_are_told_apart(ack: Seq<u8>)
    ensures
        !(ack == AuthPeer::Node.ack() && ack == AuthPeer::Discovery.ack()),
        !(ack == seq![65u8, 10u8] && ack == seq![82u8, 10u8]),
{
    if ack == AuthPeer::Node.ack() && ack == AuthPeer::Discovery.ack() {
        assert(AuthPeer::Node.ack()[1] == 110);
        assert(AuthPeer::Discovery.ack()[1] == 100);
    }
    if ack == seq![65u8, 10u8] && ack == seq![82u8, 10u8] {
        assert(ack[0] == 65 && ack[0] == 82);
    }
}

/// Nodes understand each other: what one answers to the shared secret, and to a
/// store, a deletion and a clear, is what the other takes for an acknowledgement
/// of that, and an answer that refuses is none.
pub proof fn law_nodes_understand_each_other(write: WriteView)
    ensures
        encoded(Response::AuthOk, None) == AuthPeer::Node.ack(),
        encoded(Response::Unauthorized, None) != AuthPeer::Node.ack(),
        write is Store || write is HandoffSet <==> acknowledges(
            write,
            encoded(Response::Stored, None),
        ),
        write is Delete || write is HandoffDelete <==> acknowledges(
            write,
            encoded(Response::Deleted, None),
        ),
        write is Delete || write is HandoffDelete <==> acknowledges(
            write,
            encoded(Response::NotFound, None),
        ),
        write is Clear <==> acknowledges(write, encoded(Response::Cleared, None)),
        !acknowledges(write, encoded(Response::WrongNode, None)),
        !acknowledges(write, encoded(Response::MigrationRejected, None)),
        !acknowledges(write, encoded(Response::Busy, None)),
        !acknowledges(write, encoded(Response::Unauthorized, None)),
{
    assert(encoded(Response::AuthOk, None) =~= seq![79u8, 110u8, 10u8]);
    assert(encoded(Response::Unauthorized, None) =~= seq![69u8, 110u8, 10u8]);
    assert(encoded(Response::Stored, None) =~= seq![83u8, 10u8]);
    assert(encoded(Response::Deleted, None) =~= seq![68u8, 10u8]);
    assert(encoded(Response::NotFound, None) =~= seq![78u8, 10u8]);
    assert(encoded(Response::Cleared, None) =~= seq![67u8, 10u8]);
    assert(encoded(Response::WrongNode, None) =~= seq![87u8, 10u8]);
    assert(encoded(Response::MigrationRejected, None) =~= seq![82u8, 10u8]);
    assert(encoded(Response::Busy, None) =~= seq![66u8, 10u8]);
    assert(seq![83u8, 10u8][0] == 83 && seq![68u8, 10u8][0] == 68 && seq![78u8, 10u8][0] == 78
        && seq![67u8, 10u8][0] == 67 && seq![87u8, 10u8][0] == 87 && seq![82u8, 10u8][0] == 82
        && seq![66u8, 10u8][0] == 66);
    assert(seq![69u8, 110u8, 10u8][0] == 69 && seq![79u8, 110u8, 10u8][0] == 79);
    assert(seq![69u8, 110u8, 10u8].len() == 3);
}

/// Only the peer's own answer shows that it accepted the secret: that of a node
/// is `On`, that of a discovery server `Od`, and anything else is a refusal.
pub proof fn law_only_the_peers_own_answer_is_accepted(
    peer: AuthPeer,
    ack: [u8; 3],
    verdict: Result<(), ConnectionError>,
)
    requires
        call_ensures(check_auth_ack, (peer, &ack), verdict),
    ensures
        verdict is Ok <==> ack@ == seq![
            79u8,
            if peer == AuthPeer::Node {
                110u8
            } else {
                100u8
            },
            10u8,
        ],
        verdict matches Err(error) ==> error.kind == ErrorKind::PermissionDenied,
{
}

/// A report is acknowledged by `A` and a leave by `R`; the answer to the one is
/// none to the other, and nothing else is one to either.
pub proof fn law_report_and_leave_have_their_own_answers(
    ack: [u8; 2],
    reported: Result<(), ConnectionError>,
    left: Result<(), ConnectionError>,
)
    requires
        call_ensures(check_completion_ack, (&ack,), reported),
        call_ensures(check_leave_ack, (&ack,), left),
    ensures
        reported is Ok <==> ack@ == seq![65u8, 10u8],
        left is Ok <==> ack@ == seq![82u8, 10u8],
        !(reported is Ok && left is Ok),
{
    assert(seq![65u8, 10u8][0] == 65 && seq![82u8, 10u8][0] == 82);
}

} // verus!
