//! Writes that one node passes on to another: what they look like, what
//! acknowledges them, and how often they are tried.
use vstd::prelude::*;

use crate::fault::failure;
use crate::fault::ConnectionError;
use crate::fault::ErrorKind;
use crate::key::Key;
use crate::key::KeyView;
use crate::limits::KEY_TRANSFER_ATTEMPTS;
use crate::limits::MAX_PENDING_FORWARD_WAITERS;
use crate::message::clear_frame;
use crate::message::delete_frame;
use crate::message::delete_message;
use crate::message::handoff_delete_frame;
use crate::message::handoff_delete_message;
use crate::message::handoff_fields;
use crate::message::handoff_frame;
use crate::message::handoff_message;
use crate::message::law_clear_frame_reads_back;
use crate::message::law_delete_frame_reads_back;
use crate::message::law_frames_open_with_their_letter;
use crate::message::law_handoff_delete_frame_reads_back;
use crate::message::law_handoff_frame_reads_back;
use crate::message::law_set_frame_reads_back;
use crate::message::set_frame;
use crate::message::set_message;
use crate::message::ClearScope;
use crate::message::ClearScopeView;
use crate::message::ttl_fields;
use crate::text::text_bytes;

verus! {

/// Who is at the other end of an outbound connection.
#[derive(Clone, Copy, Debug, PartialEq, Eq, Structural)]
pub enum AuthPeer {
    Node,
    Discovery,
}

impl AuthPeer {
    /// How the peer acknowledges the shared secret: each names itself.
    pub open spec fn ack(self) -> Seq<u8> {
        match self {
            AuthPeer::Node => seq![79u8, 110u8, 10u8],
            AuthPeer::Discovery => seq![79u8, 100u8, 10u8],
        }
    }

    /// `On` or `Od`, and a line feed.
    pub fn auth_ack(self) -> (ack: [u8; 3])
        ensures
            ack@ == self.ack(),
    {
        match self {
            AuthPeer::Node => {
                let ack: [u8; 3] = [79, 110, 10];
                assert(ack@ =~= self.ack());
                ack
            },
            AuthPeer::Discovery => {
                let ack: [u8; 3] = [79, 100, 10];
                assert(ack@ =~= self.ack());
                ack
            },
        }
    }

    /// What the peer is called in an error.
    pub fn describe(self) -> (text: &'static str)
        ensures
            text@ == match self {
                AuthPeer::Node => "joining node"@,
                AuthPeer::Discovery => "discovery server"@,
            },
    {
        match self {
            AuthPeer::Node => "joining node",
            AuthPeer::Discovery => "discovery server",
        }
    }

    /// Whether the peer accepted the shared secret.
    pub fn accepted(self, ack: &[u8; 3]) -> (accepted: bool)
        ensures
            accepted == (ack@ == self.ack()),
    {
        let expected: [u8; 3] = self.auth_ack();
        let accepted = ack[0] == expected[0] && ack[1] == expected[1] && ack[2] == expected[2];
        assert(accepted ==> ack@ =~= expected@);
        accepted
    }
}

/// A write on its way to another node.
pub enum ForwardedWrite<'a> {
    Store { key: &'a Key, value: &'a [u8], ttl: Option<u128> },
    Delete { key: &'a Key },
    /// A store that the receiver applies whether or not it owns the key.
    HandoffSet {
        key: &'a Key,
        value: &'a [u8],
        ttl: Option<u128>,
        if_absent: bool,
        token: &'a str,
    },
    HandoffDelete { key: &'a Key, token: &'a str },
    Clear(&'a ClearScope),
}

#[verifier::ext_equal]
pub enum WriteView {
    Store { key: KeyView, value: Seq<u8>, ttl: Option<u128> },
    Delete { key: KeyView },
    HandoffSet {
        key: KeyView,
        value: Seq<u8>,
        ttl: Option<u128>,
        if_absent: bool,
        token: Seq<char>,
    },
    HandoffDelete { key: KeyView, token: Seq<char> },
    Clear { scope: ClearScopeView },
}

impl<'a> View for ForwardedWrite<'a> {
    type V = WriteView;

    open spec fn view(&self) -> WriteView {
        match *self {
            ForwardedWrite::Store { key, value, ttl } => WriteView::Store {
                key: key@,
                value: value@,
                ttl,
            },
            ForwardedWrite::Delete { key } => WriteView::Delete { key: key@ },
            ForwardedWrite::HandoffSet { key, value, ttl, if_absent, token } => {
                WriteView::HandoffSet { key: key@, value: value@, ttl, if_absent, token: token@ }
            },
            ForwardedWrite::HandoffDelete { key, token } => WriteView::HandoffDelete {
                key: key@,
                token: token@,
            },
            ForwardedWrite::Clear(scope) => WriteView::Clear { scope: scope@ },
        }
    }
}

/// The frame that carries a write.
pub open spec fn write_frame(write: WriteView) -> Seq<u8> {
    match write {
        WriteView::Store { key, value, ttl } => set_frame(key, value, ttl),
        WriteView::Delete { key } => delete_frame(key),
        WriteView::HandoffSet { key, value, ttl, if_absent, token } => handoff_frame(
            key,
            value,
            ttl,
            if_absent,
            token,
        ),
        WriteView::HandoffDelete { key, token } => handoff_delete_frame(key, token),
        WriteView::Clear { scope } => clear_frame(scope),
    }
}

/// Whether two bytes acknowledge a write: a store is answered `S`, a clear `C`,
/// and a deletion `D`, or `N` where there was nothing to delete.
pub open spec fn acknowledges(write: WriteView, ack: Seq<u8>) -> bool {
    match write {
        WriteView::Store { .. } | WriteView::HandoffSet { .. } => ack == seq![83u8, 10u8],
        WriteView::Delete { .. } | WriteView::HandoffDelete { .. } => ack == seq![68u8, 10u8] || ack
            == seq![78u8, 10u8],
        WriteView::Clear { .. } => ack == seq![67u8, 10u8],
    }
}

/// What is said of a write that was not acknowledged.
pub open spec fn refusal_text(write: WriteView) -> Seq<char> {
    match write {
        WriteView::Store { .. } => "joining node did not acknowledge the transferred key"@,
        WriteView::Delete { .. } => "joining node did not acknowledge the forwarded delete"@,
        WriteView::HandoffSet { .. } => "peer did not acknowledge the handed-off entry"@,
        WriteView::HandoffDelete { .. } => "peer did not acknowledge the forwarded delete"@,
        WriteView::Clear { .. } => "joining node did not acknowledge the forwarded clear"@,
    }
}

/// Whether the two bytes of `ack` are `letter` and a line feed.
pub fn is_ack(ack: &[u8; 2], letter: u8) -> (matches: bool)
    ensures
        matches == (ack@ == seq![letter, 10u8]),
{
    let matches = ack[0] == letter && ack[1] == 10;
    assert(matches ==> ack@ =~= seq![letter, 10u8]);
    assert(seq![letter, 10u8][0] == letter);
    assert(seq![letter, 10u8][1] == 10u8);
    matches
}

impl<'a> ForwardedWrite<'a> {
    /// The frame to send.
    pub fn message(&self) -> (message: Vec<u8>)
        ensures
            message@ == write_frame(self@),
    {
        match self {
            ForwardedWrite::Store { key, value, ttl } => set_message(key, value, *ttl),
            ForwardedWrite::Delete { key } => delete_message(key),
            ForwardedWrite::HandoffSet { key, value, ttl, if_absent, token } => handoff_message(
                key,
                value,
                *ttl,
                *if_absent,
                token,
            ),
            ForwardedWrite::HandoffDelete { key, token } => handoff_delete_message(key, token),
            ForwardedWrite::Clear(scope) => scope.message(),
        }
    }

    /// Judges the two bytes that come back: they acknowledge the write, or it is
    /// refused.
    pub fn check_ack(&self, ack: &[u8; 2]) -> (verdict: Result<(), ConnectionError>)
        ensures
            if acknowledges(self@, ack@) {
                verdict is Ok
            } else {
                verdict matches Err(error) && error.says(
                    ErrorKind::InvalidData,
                    refusal_text(self@),
                )
            },
    {
        let (accepted, text) = match self {
            ForwardedWrite::Store { .. } => (
                is_ack(ack, 83),
                "joining node did not acknowledge the transferred key",
            ),
            ForwardedWrite::Delete { .. } => (
                is_ack(ack, 68) || is_ack(ack, 78),
                "joining node did not acknowledge the forwarded delete",
            ),
            ForwardedWrite::HandoffSet { .. } => (
                is_ack(ack, 83),
                "peer did not acknowledge the handed-off entry",
            ),
            ForwardedWrite::HandoffDelete { .. } => (
                is_ack(ack, 68) || is_ack(ack, 78),
                "peer did not acknowledge the forwarded delete",
            ),
            ForwardedWrite::Clear(_) => (
                is_ack(ack, 67),
                "joining node did not acknowledge the forwarded clear",
            ),
        };
        if accepted {
            Ok(())
        } else {
            Err(failure(ErrorKind::InvalidData, text))
        }
    }

    /// The text of the error when the whole forward takes too long.
    pub fn timed_out_message(&self) -> (text: &'static str)
        ensures
            text@ == match self@ {
                WriteView::Store { .. }
                | WriteView::HandoffSet {
                    ..
                } => "forwarding the write to the joining node timed out"@,
                WriteView::Delete { .. }
                | WriteView::HandoffDelete {
                    ..
                } => "forwarding the delete to the joining node timed out"@,
                WriteView::Clear { .. } => "forwarding the clear to the joining node timed out"@,
            },
    {
        match self {
            ForwardedWrite::Store { .. } | ForwardedWrite::HandoffSet { .. } => {
                "forwarding the write to the joining node timed out"
            },
            ForwardedWrite::Delete { .. } | ForwardedWrite::HandoffDelete { .. } => {
                "forwarding the delete to the joining node timed out"
            },
            ForwardedWrite::Clear(_) => "forwarding the clear to the joining node timed out",
        }
    }

    /// The text of the error when one attempt of a transfer takes too long.
    pub fn transfer_timed_out_message(&self) -> (text: &'static str)
        ensures
            text@ == match self@ {
                WriteView::Store { .. } => "outbound set timed out"@,
                WriteView::Delete { .. } => "outbound delete timed out"@,
                WriteView::HandoffSet { .. } => "outbound handoff set timed out"@,
                WriteView::HandoffDelete { .. } => "outbound handoff delete timed out"@,
                WriteView::Clear { .. } => "outbound clear timed out"@,
            },
    {
        match self {
            ForwardedWrite::Store { .. } => "outbound set timed out",
            ForwardedWrite::Delete { .. } => "outbound delete timed out",
            ForwardedWrite::HandoffSet { .. } => "outbound handoff set timed out",
            ForwardedWrite::HandoffDelete { .. } => "outbound handoff delete timed out",
            ForwardedWrite::Clear(_) => "outbound clear timed out",
        }
    }

    /// What is transferred, for a log line.
    pub fn what(&self) -> (text: &'static str)
        ensures
            text@ == match self@ {
                WriteView::Clear { .. } => "a clear"@,
                _ => "a key"@,
            },
    {
        match self {
            ForwardedWrite::Clear(_) => "a clear",
            _ => "a key",
        }
    }
}

/// A forwarded write that outlives the request it comes from.
#[derive(Debug)]
pub enum OwnedForwardedWrite {
    Store { key: Key, value: Vec<u8>, ttl: Option<u128> },
    Delete { key: Key },
    HandoffSet { key: Key, value: Vec<u8>, ttl: Option<u128> },
    HandoffDelete { key: Key },
    Clear(ClearScope),
}

/// The shared connection that a forward goes over.
#[derive(Debug)]
pub enum Channel {
    /// The connection of one handoff to its joining node, by the number of its
    /// ring.
    Joiner(u64),
    /// The connection of a drain to a node that takes keys over, by its address.
    Entrant(String),
}

#[verifier::ext_equal]
pub enum ChannelView {
    Joiner(u64),
    Entrant(Seq<char>),
}

impl View for Channel {
    type V = ChannelView;

    open spec fn view(&self) -> ChannelView {
        match *self {
            Channel::Joiner(id) => ChannelView::Joiner(id),
            Channel::Entrant(name) => ChannelView::Entrant(name@),
        }
    }
}

/// Where a forwarded write goes.
#[derive(Debug)]
pub struct ForwardTarget {
    pub addr: String,
    /// The target's own membership token.
    pub token: String,
    pub channel: Channel,
}

#[verifier::ext_equal]
pub struct TargetView {
    pub addr: Seq<char>,
    pub token: Seq<char>,
    pub channel: ChannelView,
}

impl View for ForwardTarget {
    type V = TargetView;

    open spec fn view(&self) -> TargetView {
        TargetView { addr: self.addr@, token: self.token@, channel: self.channel@ }
    }
}

/// What a write that outlives its request is.
#[verifier::ext_equal]
pub enum OwnedWriteView {
    Store { key: KeyView, value: Seq<u8>, ttl: Option<u128> },
    Delete { key: KeyView },
    HandoffSet { key: KeyView, value: Seq<u8>, ttl: Option<u128> },
    HandoffDelete { key: KeyView },
    Clear { scope: ClearScopeView },
}

impl View for OwnedForwardedWrite {
    type V = OwnedWriteView;

    open spec fn view(&self) -> OwnedWriteView {
        match *self {
            OwnedForwardedWrite::Store { key, value, ttl } => OwnedWriteView::Store {
                key: key@,
                value: value@,
                ttl,
            },
            OwnedForwardedWrite::Delete { key } => OwnedWriteView::Delete { key: key@ },
            OwnedForwardedWrite::HandoffSet { key, value, ttl } => OwnedWriteView::HandoffSet {
                key: key@,
                value: value@,
                ttl,
            },
            OwnedForwardedWrite::HandoffDelete { key } => OwnedWriteView::HandoffDelete {
                key: key@,
            },
            OwnedForwardedWrite::Clear(scope) => OwnedWriteView::Clear { scope: scope@ },
        }
    }
}

/// What goes to a target whose token is `token`. A client's write always wins
/// over what the target has, so nothing is sent under the condition that the
/// key is absent.
pub open spec fn addressed(write: OwnedWriteView, token: Seq<char>) -> WriteView {
    match write {
        OwnedWriteView::Store { key, value, ttl } => WriteView::Store { key, value, ttl },
        OwnedWriteView::Delete { key } => WriteView::Delete { key },
        OwnedWriteView::HandoffSet { key, value, ttl } => WriteView::HandoffSet {
            key,
            value,
            ttl,
            if_absent: false,
            token,
        },
        OwnedWriteView::HandoffDelete { key } => WriteView::HandoffDelete { key, token },
        OwnedWriteView::Clear { scope } => WriteView::Clear { scope },
    }
}

impl OwnedForwardedWrite {
    /// The write as it goes to a target.
    pub fn attempt<'a>(&'a self, target: &'a ForwardTarget) -> (write: ForwardedWrite<'a>)
        ensures
            write@ == addressed(self@, target@.token),
    {
        match self {
            OwnedForwardedWrite::Store { key, value, ttl } => ForwardedWrite::Store {
                key,
                value: value.as_slice(),
                ttl: *ttl,
            },
            OwnedForwardedWrite::Delete { key } => ForwardedWrite::Delete { key },
            OwnedForwardedWrite::HandoffSet { key, value, ttl } => ForwardedWrite::HandoffSet {
                key,
                value: value.as_slice(),
                ttl: *ttl,
                if_absent: false,
                token: target.token.as_str(),
            },
            OwnedForwardedWrite::HandoffDelete { key } => ForwardedWrite::HandoffDelete {
                key,
                token: target.token.as_str(),
            },
            OwnedForwardedWrite::Clear(scope) => ForwardedWrite::Clear(scope),
        }
    }

    /// The kind of write, for a log line.
    pub fn kind(&self) -> (text: &'static str)
        ensures
            text@ == match *self {
                OwnedForwardedWrite::Store { .. } | OwnedForwardedWrite::HandoffSet { .. } => "SET"@,
                OwnedForwardedWrite::Delete { .. }
                | OwnedForwardedWrite::HandoffDelete { .. } => "DELETE"@,
                OwnedForwardedWrite::Clear(_) => "CLEAR"@,
            },
    {
        match self {
            OwnedForwardedWrite::Store { .. } | OwnedForwardedWrite::HandoffSet { .. } => "SET",
            OwnedForwardedWrite::Delete { .. } | OwnedForwardedWrite::HandoffDelete { .. } => {
                "DELETE"
            },
            OwnedForwardedWrite::Clear(_) => "CLEAR",
        }
    }
}

/// How one forward over a shared connection ended.
#[derive(Clone, Copy, Debug, PartialEq, Eq, Structural)]
pub enum ForwardOutcome {
    Acknowledged,
    /// Connecting, sending or the acknowledgement failed.
    Failed,
    TimedOut,
}

/// Whether the shared connection may be used again: only after an
/// acknowledgement is it known that nothing is left over on it.
pub fn keeps_connection(outcome: ForwardOutcome) -> (keep: bool)
    ensures
        keep == (outcome == ForwardOutcome::Acknowledged),
{
    match outcome {
        ForwardOutcome::Acknowledged => true,
        ForwardOutcome::Failed => false,
        ForwardOutcome::TimedOut => false,
    }
}

/// What to do next in a transfer over a connection of its own.
#[derive(Clone, Copy, Debug, PartialEq, Eq, Structural)]
pub enum TransferAction {
    /// Dial the peer, then report with `Transfer::connected`.
    Connect,
    /// Send on the open connection, then report with `Transfer::sent`.
    Send,
    Delivered,
    GiveUp,
}

/// One item on its way over a connection that is dialled again after every
/// failure.
#[derive(Clone, Copy, Debug)]
pub struct Transfer {
    /// Attempts that failed.
    pub failed: u32,
    /// Whether a connection is open on which nothing has failed.
    pub open: bool,
    pub delivered: bool,
}

impl Transfer {
    /// What the transfer does next.
    pub open spec fn action(self) -> TransferAction {
        if self.delivered {
            TransferAction::Delivered
        } else if self.failed >= KEY_TRANSFER_ATTEMPTS {
            TransferAction::GiveUp
        } else if self.open {
            TransferAction::Send
        } else {
            TransferAction::Connect
        }
    }

    /// A transfer of which nothing has been tried; `open` says whether a
    /// connection is left from the item before.
    pub fn new(open: bool) -> (transfer: Transfer)
        ensures
            transfer == (Transfer { failed: 0, open, delivered: false }),
    {
        Transfer { failed: 0, open, delivered: false }
    }

    pub fn next(&self) -> (action: TransferAction)
        ensures
            action == self.action(),
    {
        if self.delivered {
            TransferAction::Delivered
        } else if self.failed >= KEY_TRANSFER_ATTEMPTS {
            TransferAction::GiveUp
        } else if self.open {
            TransferAction::Send
        } else {
            TransferAction::Connect
        }
    }

    /// A dial succeeded, or cost an attempt.
    pub open spec fn after_connect(self, success: bool) -> Transfer {
        if success {
            Transfer { open: true, ..self }
        } else {
            Transfer { failed: (self.failed + 1) as u32, ..self }
        }
    }

    pub fn connected(&mut self, success: bool)
        requires
            old(self).action() == TransferAction::Connect,
        ensures
            *final(self) == old(self).after_connect(success),
    {
        if success {
            self.open = true;
        } else {
            self.failed = self.failed + 1;
        }
    }

    /// A send was acknowledged, or cost an attempt and the connection.
    pub open spec fn after_send(self, success: bool) -> Transfer {
        if success {
            Transfer { delivered: true, ..self }
        } else {
            Transfer { failed: (self.failed + 1) as u32, open: false, ..self }
        }
    }

    pub fn sent(&mut self, success: bool)
        requires
            old(self).action() == TransferAction::Send,
        ensures
            *final(self) == old(self).after_send(success),
    {
        if success {
            self.delivered = true;
        } else {
            self.failed = self.failed + 1;
            self.open = false;
        }
    }

    /// The transfer after the given results, in order, of what it asked for.
    pub open spec fn after(self, results: Seq<bool>) -> Transfer
        decreases results.len(),
    {
        if results.len() == 0 {
            self
        } else {
            let before = self.after(results.drop_last());
            match before.action() {
                TransferAction::Connect => before.after_connect(results.last()),
                TransferAction::Send => before.after_send(results.last()),
                TransferAction::Delivered => before,
                TransferAction::GiveUp => before,
            }
        }
    }
}

/// How many of the results are failures.
pub open spec fn failures(results: Seq<bool>) -> nat
    decreases results.len(),
{
    if results.len() == 0 {
        0
    } else {
        failures(results.drop_last()) + if results.last() {
            0nat
        } else {
            1
        }
    }
}

/// Whatever the results, a transfer ends after at most three failures: it gives
/// up only when it has had that many, has not been delivered then, and goes on
/// while it has had fewer and is not delivered. A connection on which a send
/// failed is never used again, and a transfer that has given up holds none.
pub proof fn law_transfer_gives_up_after_the_last_attempt(open: bool, results: Seq<bool>)
    ensures
        ({
            let start = Transfer { failed: 0, open, delivered: false };
            let end = start.after(results);
            &&& end.failed <= KEY_TRANSFER_ATTEMPTS
            &&& end.failed <= failures(results)
            &&& end.action() != TransferAction::Delivered && end.action()
                != TransferAction::GiveUp ==> end.failed == failures(results)
            &&& end.delivered ==> end.open && end.failed < KEY_TRANSFER_ATTEMPTS
            &&& !end.after_send(false).open
            &&& end.action() == TransferAction::GiveUp ==> !end.open
        }),
    decreases results.len(),
{
    if results.len() > 0 {
        law_transfer_gives_up_after_the_last_attempt(open, results.drop_last());
    }
}

/// Enough successes end a transfer well: with a working peer an item is
/// delivered by the next send, after at most one dial.
pub proof fn law_transfer_delivers_to_a_working_peer(transfer: Transfer)
    requires
        transfer.action() == TransferAction::Connect || transfer.action() == TransferAction::Send,
    ensures
        transfer.after(seq![true, true]).action() == TransferAction::Delivered,
{
    reveal_with_fuel(Transfer::after, 3);
    let two = seq![true, true];
    assert(two.drop_last() =~= seq![true]);
    assert(seq![true].drop_last() =~= Seq::<bool>::empty());
}

/// What to do after an attempt to forward a client's write.
#[derive(Clone, Copy, Debug, PartialEq, Eq, Structural)]
pub enum RetryAction {
    Done,
    Retry,
    GiveUp,
}

/// Decides after attempt number `attempt`, counted from one: a forward is
/// tried as often as a transfer.
pub fn after_forward_attempt(attempt: u32, acknowledged: bool) -> (action: RetryAction)
    ensures
        action == if acknowledged {
            RetryAction::Done
        } else if attempt < KEY_TRANSFER_ATTEMPTS {
            RetryAction::Retry
        } else {
            RetryAction::GiveUp
        },
{
    if acknowledged {
        RetryAction::Done
    } else if attempt < KEY_TRANSFER_ATTEMPTS {
        RetryAction::Retry
    } else {
        RetryAction::GiveUp
    }
}

/// What the forward queue said when a forward was offered to it.
#[derive(Clone, Copy, Debug, PartialEq, Eq, Structural)]
pub enum QueueReply {
    Taken,
    /// Nobody will ever take anything from it again.
    Closed,
    Full,
}

/// What becomes of a forward that was offered to the queue.
#[derive(Clone, Copy, Debug, PartialEq, Eq, Structural)]
pub enum QueueAction {
    Queued,
    /// A waiter holds it until there is room.
    Wait,
    /// Dropped, since the queue is closed.
    DropClosed,
    /// Dropped, since too many are waiting.
    DropFull,
}

/// Decides on an offered forward. `waiting` counts the waiters, and counts the
/// one that a `Wait` adds; nothing that is offered takes it over its limit.
pub fn offer_forward(reply: QueueReply, waiting: &mut usize) -> (action: QueueAction)
    ensures
        action == match reply {
            QueueReply::Taken => QueueAction::Queued,
            QueueReply::Closed => QueueAction::DropClosed,
            QueueReply::Full => if *old(waiting) < MAX_PENDING_FORWARD_WAITERS {
                QueueAction::Wait
            } else {
                QueueAction::DropFull
            },
        },
        *final(waiting) == if action == QueueAction::Wait {
            *old(waiting) + 1
        } else {
            *old(waiting) as int
        },
        *old(waiting) <= MAX_PENDING_FORWARD_WAITERS ==> *final(waiting)
            <= MAX_PENDING_FORWARD_WAITERS,
{
    match reply {
        QueueReply::Taken => QueueAction::Queued,
        QueueReply::Closed => QueueAction::DropClosed,
        QueueReply::Full => {
            if *waiting < MAX_PENDING_FORWARD_WAITERS {
                *waiting = *waiting + 1;
                QueueAction::Wait
            } else {
                QueueAction::DropFull
            }
        },
    }
}

/// A client's write goes out whole: the frame that a target gets carries the key
/// of the write and, of a store, its value and its time to live; where a token
/// is called for it is the target's own; and nothing is to give way to what the
/// target has.
pub proof fn law_forwarded_write_goes_out_whole(
    key: KeyView,
    value: Seq<u8>,
    ttl: Option<u128>,
    scope: ClearScopeView,
    token: Seq<char>,
)
    ensures
        write_frame(addressed(OwnedWriteView::Store { key, value, ttl }, token)) == set_frame(
            key,
            value,
            ttl,
        ),
        write_frame(addressed(OwnedWriteView::Delete { key }, token)) == delete_frame(key),
        write_frame(addressed(OwnedWriteView::HandoffSet { key, value, ttl }, token))
            == handoff_frame(key, value, ttl, false, token),
        write_frame(addressed(OwnedWriteView::HandoffDelete { key }, token))
            == handoff_delete_frame(key, token),
        write_frame(addressed(OwnedWriteView::Clear { scope }, token)) == clear_frame(scope),
{
}

/// An entry that is handed over goes out whole, with the token of its target,
/// and gives way to what the target has just if it is to.
pub proof fn law_handed_over_entry_goes_out_whole(
    key: KeyView,
    value: Seq<u8>,
    ttl: Option<u128>,
    if_absent: bool,
    token: Seq<char>,
)
    ensures
        write_frame(WriteView::HandoffSet { key, value, ttl, if_absent, token }) == handoff_frame(
            key,
            value,
            ttl,
            if_absent,
            token,
        ),
{
}

/// A write is acknowledged by one line of one letter: a store by `S` alone, a
/// clear by `C` alone, a deletion by `D` or `N` alone. So nothing acknowledges
/// writes of two kinds, and a refusal acknowledges none.
pub proof fn law_acknowledgements_fit_their_write(write: WriteView, ack: Seq<u8>)
    requires
        acknowledges(write, ack),
    ensures
        ack.len() == 2,
        ack[1] == 10,
        write is Store || write is HandoffSet <==> ack[0] == 83,
        write is Clear <==> ack[0] == 67,
        write is Delete || write is HandoffDelete <==> ack[0] == 68 || ack[0] == 78,
{
}

/// Each write is acknowledged by its letter: the node that is told `S`, `C`, or
/// `D` or `N` has its store, its clear or its deletion acknowledged.
pub proof fn law_right_letter_acknowledges(write: WriteView)
    ensures
        write is Store || write is HandoffSet ==> acknowledges(write, seq![83u8, 10u8]),
        write is Clear ==> acknowledges(write, seq![67u8, 10u8]),
        write is Delete || write is HandoffDelete ==> acknowledges(write, seq![68u8, 10u8])
            && acknowledges(write, seq![78u8, 10u8]),
{
}

/// No frame is taken for that of another write: it tells the kind of the write,
/// the key, the value, the whole seconds to live, whether to give way, the token
/// and the scope.
pub proof fn law_writes_are_told_apart(a: WriteView, b: WriteView)
    requires
        write_frame(a) == write_frame(b),
    ensures
        match a {
            WriteView::Store { key, value, ttl } => b matches WriteView::Store {
                key: other,
                value: other_value,
                ttl: other_ttl,
            } && key == other && value == other_value && same_seconds(ttl, other_ttl),
            WriteView::Delete { key } => b == (WriteView::Delete { key }),
            WriteView::HandoffSet { key, value, ttl, if_absent, token } => b
                matches WriteView::HandoffSet {
                key: other,
                value: other_value,
                ttl: other_ttl,
                if_absent: other_if_absent,
                token: other_token,
            } && key == other && value == other_value && same_seconds(ttl, other_ttl) && if_absent
                == other_if_absent && token == other_token,
            WriteView::HandoffDelete { key, token } => b == (WriteView::HandoffDelete {
                key,
                token,
            }),
            WriteView::Clear { scope } => b == (WriteView::Clear { scope }),
        },
{
    lemma_write_opens(a);
    lemma_write_opens(b);
    match a {
        WriteView::Store { key, value, ttl } => {
            if let WriteView::Store { key: other, value: other_value, ttl: other_ttl } = b {
                law_set_frame_reads_back(key, value, ttl, other, other_value, other_ttl);
            }
        },
        WriteView::Delete { key } => {
            if let WriteView::Delete { key: other } = b {
                law_delete_frame_reads_back(key, other);
            }
        },
        WriteView::HandoffSet { key, value, ttl, if_absent, token } => {
            if let WriteView::HandoffSet {
                key: other,
                value: other_value,
                ttl: other_ttl,
                if_absent: other_if_absent,
                token: other_token,
            } = b {
                law_handoff_frame_reads_back(
                    key,
                    value,
                    ttl,
                    if_absent,
                    token,
                    other,
                    other_value,
                    other_ttl,
                    other_if_absent,
                    other_token,
                );
            }
        },
        WriteView::HandoffDelete { key, token } => {
            if let WriteView::HandoffDelete { key: other, token: other_token } = b {
                law_handoff_delete_frame_reads_back(key, token, other, other_token);
            }
        },
        WriteView::Clear { scope } => {
            if let WriteView::Clear { scope: other } = b {
                law_clear_frame_reads_back(scope, other);
            }
        },
    }
}

/// Whether two times to live are the same to the second, or neither is there.
pub open spec fn same_seconds(a: Option<u128>, b: Option<u128>) -> bool {
    match a {
        Some(nanos) => b matches Some(others) && nanos / 1_000_000_000 == others / 1_000_000_000,
        None => b is None,
    }
}

proof fn lemma_write_opens(write: WriteView)
    ensures
        write_frame(write).len() > 0,
        ({
            let letter = write_frame(write)[0];
            match write {
                WriteView::Store { .. } => letter == 83 || letter == 115,
                WriteView::Delete { .. } => letter == 68 || letter == 100,
                WriteView::HandoffSet { .. } => letter == 85,
                WriteView::HandoffDelete { .. } => letter == 117,
                WriteView::Clear { .. } => letter == 99 || letter == 70,
            }
        }),
{
    match write {
        WriteView::Store { key, value, ttl } => {
            law_frames_open_with_their_letter(
                115,
                seq![key.namespace.len(), key.name.len(), value.len()] + ttl_fields(ttl),
                0,
                key.namespace + key.name + value,
            );
            law_frames_open_with_their_letter(
                83,
                seq![key.name.len(), value.len()] + ttl_fields(ttl),
                0,
                key.name + value,
            );
        },
        WriteView::Delete { key } => {
            law_frames_open_with_their_letter(
                100,
                seq![key.namespace.len(), key.name.len()],
                0,
                key.namespace + key.name,
            );
            law_frames_open_with_their_letter(68, seq![key.name.len()], 0, key.name);
        },
        WriteView::HandoffSet { key, value, ttl, if_absent, token } => {
            law_frames_open_with_their_letter(
                85,
                handoff_fields(key, value, ttl, token),
                65,
                text_bytes(token) + key.namespace + key.name + value,
            );
        },
        WriteView::HandoffDelete { key, token } => {
            law_frames_open_with_their_letter(
                117,
                seq![key.namespace.len(), key.name.len(), text_bytes(token).len()],
                0,
                text_bytes(token) + key.namespace + key.name,
            );
        },
        WriteView::Clear { scope } => {
            match scope {
                ClearScopeView::Namespace(namespace) => {
                    law_frames_open_with_their_letter(99, seq![namespace.len()], 0, namespace);
                },
                ClearScopeView::All => {
                    law_frames_open_with_their_letter(70, Seq::empty(), 0, Seq::empty());
                },
            }
        },
    }
}

/// A transfer that was delivered is done with, and one that has failed as often
/// as it is tried, which is three times, is given up; in between it dials if it
/// has no connection, and sends on the one it has.
pub proof fn law_transfer_goes_step_by_step(transfer: Transfer)
    ensures
        transfer.delivered ==> transfer.action() is Delivered,
        !transfer.delivered && transfer.failed >= 3 ==> transfer.action() is GiveUp,
        !transfer.delivered && transfer.failed < 3 ==> (transfer.action() is Send <==> transfer.open)
            && (transfer.action() is Connect <==> !transfer.open),
        transfer.after_connect(true).open && transfer.after_connect(true).failed == transfer.failed,
        transfer.failed < 3 ==> transfer.after_connect(false).failed == transfer.failed + 1,
        transfer.after_send(true).delivered && transfer.after_send(true).failed == transfer.failed,
        transfer.failed < 3 ==> transfer.after_send(false).failed == transfer.failed + 1
            && transfer.after_send(false).delivered == transfer.delivered
            && !transfer.after_send(false).open,
{
}

/// A forward is done when it is acknowledged, at whatever attempt; else it is
/// tried again until the third attempt, and then given up.
pub proof fn law_forward_is_tried_three_times(
    attempt: u32,
    acknowledged: bool,
    action: RetryAction,
)
    requires
        call_ensures(after_forward_attempt, (attempt, acknowledged), action),
    ensures
        action is Done <==> acknowledged,
        action is Retry <==> !acknowledged && attempt < 3,
        action is GiveUp <==> !acknowledged && attempt >= 3,
{
}

/// A shared connection is used again only after an acknowledgement: after a
/// failure, or a wait that was too long, an answer may still be on its way.
pub proof fn law_connection_is_kept_only_when_nothing_is_left_on_it(
    outcome: ForwardOutcome,
    keep: bool,
)
    requires
        call_ensures(keeps_connection, (outcome,), keep),
    ensures
        keep <==> outcome is Acknowledged,
        outcome is Failed || outcome is TimedOut ==> !keep,
{
}

/// A target is viewed whole: its address, its own token and its connection.
pub proof fn law_target_is_viewed_whole(target: ForwardTarget, id: u64, addr: String)
    ensures
        target@.addr == target.addr@,
        target@.token == target.token@,
        target.channel == Channel::Joiner(id) ==> target@.channel == ChannelView::Joiner(id),
        target.channel == Channel::Entrant(addr) ==> target@.channel == ChannelView::Entrant(addr@),
{
}

/// A write is viewed whole: as the kind of write that it is, with its key and,
/// of a store, its value and its time to live.
pub proof fn law_write_is_viewed_whole(
    key: Key,
    value: Vec<u8>,
    ttl: Option<u128>,
    if_absent: bool,
    token: &str,
    scope: ClearScope,
)
    ensures
        (OwnedForwardedWrite::Store { key, value, ttl })@ == (OwnedWriteView::Store {
            key: key@,
            value: value@,
            ttl,
        }),
        (OwnedForwardedWrite::Delete { key })@ == (OwnedWriteView::Delete { key: key@ }),
        (OwnedForwardedWrite::HandoffSet { key, value, ttl })@ == (OwnedWriteView::HandoffSet {
            key: key@,
            value: value@,
            ttl,
        }),
        (OwnedForwardedWrite::HandoffDelete { key })@ == (OwnedWriteView::HandoffDelete {
            key: key@,
        }),
        OwnedForwardedWrite::Clear(scope)@ == (OwnedWriteView::Clear { scope: scope@ }),
{
}

/// A forward that the queue took is queued; one that finds it full waits as long
/// as fewer than the limit are waiting, and is dropped then; one that finds it
/// closed is dropped. Only a wait adds to those that wait.
pub proof fn law_waiters_are_bounded(reply: QueueReply, waiting: &mut usize, action: QueueAction)
    requires
        call_ensures(offer_forward, (reply, waiting), action),
    ensures
        reply is Taken ==> action is Queued,
        reply is Closed ==> action is DropClosed,
        reply is Full ==> (action is Wait <==> *old(waiting) < 4096) && (action is DropFull
            <==> *old(waiting) >= 4096),
        action is Wait ==> *final(waiting) == *old(waiting) + 1,
        !(action is Wait) ==> *final(waiting) == *old(waiting),
{
}

} // verus!
