//! The frames a node sends to its peers and to discovery servers.
//!
//! A frame is a one-byte command, number fields each behind a space, for some
//! commands a flag, a line feed, and a body whose parts have the lengths that
//! the fields declare.
use vstd::prelude::*;

use crate::key::Key;
use crate::key::KeyView;
use crate::scan::lemma_is_position;
use crate::scan::lemma_numbers_concat;
use crate::scan::lemma_numbers_split;
use crate::scan::numbers;
use crate::scan::position;
use crate::text::copy_bytes;
use crate::text::decimal;
use crate::text::is_digit;
use crate::text::lemma_decimal_injective;
use crate::text::lemma_decimal_round_trip;
use crate::text::lemma_text_bytes_injective;
use crate::text::push_bytes;
use crate::text::push_decimal;
use crate::text::push_text;
use crate::text::text_bytes;

verus! {

/// Nanoseconds in a second.
pub const NANOS_PER_SECOND: u128 = 1_000_000_000;

/// A duration of `millis` milliseconds, in nanoseconds.
pub fn from_millis(millis: u64) -> (nanos: u128)
    ensures
        nanos == millis * 1_000_000,
{
    (millis as u128) * 1_000_000
}

/// A duration of `seconds` seconds, in nanoseconds.
pub fn from_secs(seconds: u64) -> (nanos: u128)
    ensures
        nanos == seconds * NANOS_PER_SECOND,
{
    (seconds as u128) * NANOS_PER_SECOND
}

/// The command and the number fields of a header.
pub open spec fn header(command: u8, fields: Seq<nat>) -> Seq<u8>
    decreases fields.len(),
{
    if fields.len() == 0 {
        seq![command]
    } else {
        header(command, fields.drop_last()).push(32) + decimal(fields.last())
    }
}

/// A frame without a flag.
pub open spec fn frame(command: u8, fields: Seq<nat>, body: Seq<u8>) -> Seq<u8> {
    header(command, fields).push(10) + body
}

/// A frame whose header ends in a flag.
pub open spec fn flagged_frame(command: u8, fields: Seq<nat>, flag: u8, body: Seq<u8>) -> Seq<u8> {
    header(command, fields).push(32).push(flag).push(10) + body
}

/// The whole seconds of a time to live, as the field that carries it.
pub open spec fn ttl_fields(ttl: Option<u128>) -> Seq<nat> {
    match ttl {
        Some(nanos) => seq![(nanos / NANOS_PER_SECOND) as nat],
        None => Seq::empty(),
    }
}

/// Appends a number field to a header.
pub fn push_field(out: &mut Vec<u8>, n: u128)
    ensures
        final(out)@ == old(out)@.push(32) + decimal(n as nat),
{
    out.push(32);
    push_decimal(out, n);
}

proof fn lemma_header_one(command: u8, fields: Seq<nat>, n: nat)
    ensures
        header(command, fields.push(n)) == header(command, fields).push(32) + decimal(n),
{
    assert(fields.push(n).drop_last() =~= fields);
}

/// A header of one field.
fn header_of_one(command: u8, a: u128) -> (out: Vec<u8>)
    ensures
        out@ == header(command, seq![a as nat]),
{
    let mut out: Vec<u8> = Vec::new();
    out.push(command);
    push_field(&mut out, a);
    proof {
        lemma_header_one(command, Seq::empty(), a as nat);
        assert(Seq::<nat>::empty().push(a as nat) =~= seq![a as nat]);
        assert(header(command, Seq::empty()) =~= seq![command]);
        assert(Seq::<u8>::empty().push(command) =~= seq![command]);
    }
    out
}

fn header_of_two(command: u8, a: u128, b: u128) -> (out: Vec<u8>)
    ensures
        out@ == header(command, seq![a as nat, b as nat]),
{
    let mut out = header_of_one(command, a);
    push_field(&mut out, b);
    proof {
        lemma_header_one(command, seq![a as nat], b as nat);
        assert(seq![a as nat].push(b as nat) =~= seq![a as nat, b as nat]);
    }
    out
}

fn header_of_three(command: u8, a: u128, b: u128, c: u128) -> (out: Vec<u8>)
    ensures
        out@ == header(command, seq![a as nat, b as nat, c as nat]),
{
    let mut out = header_of_two(command, a, b);
    push_field(&mut out, c);
    proof {
        lemma_header_one(command, seq![a as nat, b as nat], c as nat);
        assert(seq![a as nat, b as nat].push(c as nat) =~= seq![a as nat, b as nat, c as nat]);
    }
    out
}

fn header_of_four(command: u8, a: u128, b: u128, c: u128, d: u128) -> (out: Vec<u8>)
    ensures
        out@ == header(command, seq![a as nat, b as nat, c as nat, d as nat]),
{
    let mut out = header_of_three(command, a, b, c);
    push_field(&mut out, d);
    proof {
        lemma_header_one(command, seq![a as nat, b as nat, c as nat], d as nat);
        assert(seq![a as nat, b as nat, c as nat].push(d as nat) =~= seq![
            a as nat,
            b as nat,
            c as nat,
            d as nat,
        ]);
    }
    out
}

/// Appends the field of a time to live to a header that holds `fields`.
fn push_ttl(
    out: &mut Vec<u8>,
    ttl: Option<u128>,
    Ghost(command): Ghost<u8>,
    Ghost(fields): Ghost<Seq<nat>>,
)
    requires
        old(out)@ == header(command, fields),
    ensures
        final(out)@ == header(command, fields + ttl_fields(ttl)),
{
    match ttl {
        Some(nanos) => {
            push_field(out, nanos / NANOS_PER_SECOND);
            proof {
                let n = (nanos / NANOS_PER_SECOND) as nat;
                lemma_header_one(command, fields, n);
                assert(fields + ttl_fields(ttl) =~= fields.push(n));
            }
        },
        None => {
            assert(fields + ttl_fields(ttl) =~= fields);
        },
    }
}

/// The frame by which a node asks its primary discovery server to join.
pub open spec fn join_frame(name: Seq<char>, port: u16, token: Seq<char>) -> Seq<u8> {
    frame(
        74,
        seq![text_bytes(name).len(), port as nat, text_bytes(token).len()],
        text_bytes(name) + text_bytes(token),
    )
}

/// `J <name-length> <port> <token-length>`, then the name and the token.
pub fn join_message(name: &str, port: u16, token: &str) -> (message: Vec<u8>)
    ensures
        message@ == join_frame(name@, port, token@),
{
    let mut message = header_of_three(
        74,
        name.as_bytes().len() as u128,
        port as u128,
        token.as_bytes().len() as u128,
    );
    message.push(10);
    push_text(&mut message, name);
    push_text(&mut message, token);
    assert(message@ =~= join_frame(name@, port, token@));
    message
}

/// The frame by which a node that has joined registers again.
pub open spec fn announce_frame(name: Seq<char>, port: u16, token: Seq<char>) -> Seq<u8> {
    frame(
        80,
        seq![text_bytes(name).len(), port as nat, text_bytes(token).len()],
        text_bytes(name) + text_bytes(token),
    )
}

/// `P <name-length> <port> <token-length>`, then the name and the token.
pub fn announce_message(name: &str, port: u16, token: &str) -> (message: Vec<u8>)
    ensures
        message@ == announce_frame(name@, port, token@),
{
    let mut message = header_of_three(
        80,
        name.as_bytes().len() as u128,
        port as u128,
        token.as_bytes().len() as u128,
    );
    message.push(10);
    push_text(&mut message, name);
    push_text(&mut message, token);
    assert(message@ =~= announce_frame(name@, port, token@));
    message
}

/// The replication factor a heartbeat carries: zero if none is known.
pub open spec fn reported_replication(replication: Option<usize>) -> nat {
    match replication {
        Some(factor) => factor as nat,
        None => 0,
    }
}

/// The frame of a heartbeat.
pub open spec fn heartbeat_frame(
    name: Seq<char>,
    replication: Option<usize>,
    token: Seq<char>,
) -> Seq<u8> {
    frame(
        72,
        seq![
            text_bytes(name).len(),
            reported_replication(replication),
            text_bytes(token).len(),
        ],
        text_bytes(name) + text_bytes(token),
    )
}

/// `H <name-length> <replication> <token-length>`, then the name and the token.
pub fn heartbeat_message(name: &str, replication: Option<usize>, token: &str) -> (message: Vec<u8>)
    ensures
        message@ == heartbeat_frame(name@, replication, token@),
{
    let factor: usize = match replication {
        Some(factor) => factor,
        None => 0,
    };
    let mut message = header_of_three(
        72,
        name.as_bytes().len() as u128,
        factor as u128,
        token.as_bytes().len() as u128,
    );
    message.push(10);
    push_text(&mut message, name);
    push_text(&mut message, token);
    assert(message@ =~= heartbeat_frame(name@, replication, token@));
    message
}

/// The frame that presents a shared secret.
pub open spec fn auth_frame(secret: Seq<u8>) -> Seq<u8> {
    frame(65, seq![secret.len()], secret)
}

/// `A <secret-length>`, then the secret.
pub fn auth_message(secret: &[u8]) -> (message: Vec<u8>)
    ensures
        message@ == auth_frame(secret@),
{
    let mut message = header_of_one(65, secret.len() as u128);
    message.push(10);
    push_bytes(&mut message, secret);
    assert(message@ =~= auth_frame(secret@));
    message
}

/// The frame that stores a key: the plain form for the default namespace, the
/// lower case form, which carries the namespace, for any other.
pub open spec fn set_frame(key: KeyView, value: Seq<u8>, ttl: Option<u128>) -> Seq<u8> {
    if key.namespace.len() > 0 {
        frame(
            115,
            seq![key.namespace.len(), key.name.len(), value.len()] + ttl_fields(ttl),
            key.namespace + key.name + value,
        )
    } else {
        frame(83, seq![key.name.len(), value.len()] + ttl_fields(ttl), key.name + value)
    }
}

/// `S <key-length> <value-length> [ttl]` or
/// `s <namespace-length> <key-length> <value-length> [ttl]`, then the parts.
/// A time to live, in nanoseconds, is rounded down to whole seconds.
pub fn set_message(key: &Key, value: &[u8], ttl: Option<u128>) -> (message: Vec<u8>)
    ensures
        message@ == set_frame(key@, value@, ttl),
{
    let mut message: Vec<u8>;
    if key.is_namespaced() {
        message = header_of_three(
            115,
            key.namespace.len() as u128,
            key.name.len() as u128,
            value.len() as u128,
        );
        let ghost fields = seq![key@.namespace.len(), key@.name.len(), value@.len()];
        push_ttl(&mut message, ttl, Ghost(115), Ghost(fields));
    } else {
        message = header_of_two(83, key.name.len() as u128, value.len() as u128);
        let ghost fields = seq![key@.name.len(), value@.len()];
        push_ttl(&mut message, ttl, Ghost(83), Ghost(fields));
    }
    message.push(10);
    push_bytes(&mut message, key.namespace.as_slice());
    push_bytes(&mut message, key.name.as_slice());
    push_bytes(&mut message, value);
    assert(message@ =~= set_frame(key@, value@, ttl));
    message
}

/// The frame that deletes a key.
pub open spec fn delete_frame(key: KeyView) -> Seq<u8> {
    if key.namespace.len() > 0 {
        frame(100, seq![key.namespace.len(), key.name.len()], key.namespace + key.name)
    } else {
        frame(68, seq![key.name.len()], key.name)
    }
}

/// `D <key-length>` or `d <namespace-length> <key-length>`, then the parts.
pub fn delete_message(key: &Key) -> (message: Vec<u8>)
    ensures
        message@ == delete_frame(key@),
{
    let mut message = if key.is_namespaced() {
        header_of_two(100, key.namespace.len() as u128, key.name.len() as u128)
    } else {
        header_of_one(68, key.name.len() as u128)
    };
    message.push(10);
    push_bytes(&mut message, key.namespace.as_slice());
    push_bytes(&mut message, key.name.as_slice());
    assert(message@ =~= delete_frame(key@));
    message
}

/// The frame that reports a finished handoff.
pub open spec fn complete_frame(
    name: Seq<char>,
    joining_name: Seq<char>,
    token: Seq<char>,
) -> Seq<u8> {
    frame(
        67,
        seq![text_bytes(name).len(), text_bytes(joining_name).len(), text_bytes(token).len()],
        text_bytes(name) + text_bytes(joining_name) + text_bytes(token),
    )
}

/// `C <name-length> <joining-name-length> <token-length>`, then the parts.
pub fn complete_message(name: &str, joining_name: &str, token: &str) -> (message: Vec<u8>)
    ensures
        message@ == complete_frame(name@, joining_name@, token@),
{
    let mut message = header_of_three(
        67,
        name.as_bytes().len() as u128,
        joining_name.as_bytes().len() as u128,
        token.as_bytes().len() as u128,
    );
    message.push(10);
    push_text(&mut message, name);
    push_text(&mut message, joining_name);
    push_text(&mut message, token);
    assert(message@ =~= complete_frame(name@, joining_name@, token@));
    message
}

/// The fields of a handoff frame.
pub open spec fn handoff_fields(
    key: KeyView,
    value: Seq<u8>,
    ttl: Option<u128>,
    token: Seq<char>,
) -> Seq<nat> {
    seq![key.namespace.len(), key.name.len(), value.len(), text_bytes(token).len()] + ttl_fields(
        ttl,
    )
}

/// The frame by which a node hands an entry over to a peer, whether or not the
/// peer owns it yet.
pub open spec fn handoff_frame(
    key: KeyView,
    value: Seq<u8>,
    ttl: Option<u128>,
    if_absent: bool,
    token: Seq<char>,
) -> Seq<u8> {
    let body = text_bytes(token) + key.namespace + key.name + value;
    if if_absent {
        flagged_frame(85, handoff_fields(key, value, ttl, token), 65, body)
    } else {
        frame(85, handoff_fields(key, value, ttl, token), body)
    }
}

/// `U <namespace-length> <key-length> <value-length> <token-length> [ttl] [A]`,
/// then the receiver's token and the parts. The flag asks the receiver to keep
/// what it already has.
pub fn handoff_message(
    key: &Key,
    value: &[u8],
    ttl: Option<u128>,
    if_absent: bool,
    token: &str,
) -> (message: Vec<u8>)
    ensures
        message@ == handoff_frame(key@, value@, ttl, if_absent, token@),
{
    let mut message = header_of_four(
        85,
        key.namespace.len() as u128,
        key.name.len() as u128,
        value.len() as u128,
        token.as_bytes().len() as u128,
    );
    let ghost fields = seq![
        key@.namespace.len(),
        key@.name.len(),
        value@.len(),
        text_bytes(token@).len(),
    ];
    push_ttl(&mut message, ttl, Ghost(85), Ghost(fields));
    if if_absent {
        message.push(32);
        message.push(65);
    }
    message.push(10);
    push_text(&mut message, token);
    push_bytes(&mut message, key.namespace.as_slice());
    push_bytes(&mut message, key.name.as_slice());
    push_bytes(&mut message, value);
    assert(message@ =~= handoff_frame(key@, value@, ttl, if_absent, token@));
    message
}

/// The frame by which a node forwards a deletion to a peer, whether or not the
/// peer owns the key yet.
pub open spec fn handoff_delete_frame(key: KeyView, token: Seq<char>) -> Seq<u8> {
    frame(
        117,
        seq![key.namespace.len(), key.name.len(), text_bytes(token).len()],
        text_bytes(token) + key.namespace + key.name,
    )
}

/// `u <namespace-length> <key-length> <token-length>`, then the receiver's
/// token and the parts.
pub fn handoff_delete_message(key: &Key, token: &str) -> (message: Vec<u8>)
    ensures
        message@ == handoff_delete_frame(key@, token@),
{
    let mut message = header_of_three(
        117,
        key.namespace.len() as u128,
        key.name.len() as u128,
        token.as_bytes().len() as u128,
    );
    message.push(10);
    push_text(&mut message, token);
    push_bytes(&mut message, key.namespace.as_slice());
    push_bytes(&mut message, key.name.as_slice());
    assert(message@ =~= handoff_delete_frame(key@, token@));
    message
}

/// A frame that presents a node's name and token.
pub open spec fn identity_frame(command: u8, name: Seq<char>, token: Seq<char>) -> Seq<u8> {
    frame(
        command,
        seq![text_bytes(name).len(), text_bytes(token).len()],
        text_bytes(name) + text_bytes(token),
    )
}

fn identity_message(command: u8, name: &str, token: &str) -> (message: Vec<u8>)
    ensures
        message@ == identity_frame(command, name@, token@),
{
    let mut message = header_of_two(
        command,
        name.as_bytes().len() as u128,
        token.as_bytes().len() as u128,
    );
    message.push(10);
    push_text(&mut message, name);
    push_text(&mut message, token);
    assert(message@ =~= identity_frame(command, name@, token@));
    message
}

/// `V <name-length> <token-length>`, then the name and the token: this node
/// leaves.
pub fn leave_message(name: &str, token: &str) -> (message: Vec<u8>)
    ensures
        message@ == identity_frame(86, name@, token@),
{
    identity_message(86, name, token)
}

/// `T <name-length> <token-length>`, then the name and the token: asks for the
/// roster with addresses and tokens.
pub fn roster_message(name: &str, token: &str) -> (message: Vec<u8>)
    ensures
        message@ == identity_frame(84, name@, token@),
{
    identity_message(84, name, token)
}

/// What a clear wipes.
#[derive(Debug, PartialEq, Eq)]
pub enum ClearScope {
    /// One namespace; the default one is empty.
    Namespace(Vec<u8>),
    All,
}

#[verifier::ext_equal]
pub enum ClearScopeView {
    Namespace(Seq<u8>),
    All,
}

impl View for ClearScope {
    type V = ClearScopeView;

    open spec fn view(&self) -> ClearScopeView {
        match *self {
            ClearScope::Namespace(namespace) => ClearScopeView::Namespace(namespace@),
            ClearScope::All => ClearScopeView::All,
        }
    }
}

impl Clone for ClearScope {
    fn clone(&self) -> (copy: ClearScope)
        ensures
            copy@ == self@,
    {
        match self {
            ClearScope::Namespace(namespace) => ClearScope::Namespace(
                copy_bytes(namespace.as_slice()),
            ),
            ClearScope::All => ClearScope::All,
        }
    }
}

/// The frame of a clear.
pub open spec fn clear_frame(scope: ClearScopeView) -> Seq<u8> {
    match scope {
        ClearScopeView::Namespace(namespace) => frame(99, seq![namespace.len()], namespace),
        ClearScopeView::All => frame(70, Seq::empty(), Seq::empty()),
    }
}

impl ClearScope {
    /// `c <namespace-length>` and the namespace, or `F`.
    pub fn message(&self) -> (message: Vec<u8>)
        ensures
            message@ == clear_frame(self@),
    {
        match self {
            ClearScope::Namespace(namespace) => {
                let mut message = header_of_one(99, namespace.len() as u128);
                message.push(10);
                push_bytes(&mut message, namespace.as_slice());
                assert(message@ =~= clear_frame(self@));
                message
            },
            ClearScope::All => {
                let mut message: Vec<u8> = Vec::new();
                message.push(70);
                message.push(10);
                assert(message@ =~= clear_frame(self@));
                message
            },
        }
    }
}

proof fn lemma_decimal_bytes(n: nat, i: int)
    requires
        0 <= i < decimal(n).len(),
    ensures
        48 <= decimal(n)[i] <= 57,
{
    lemma_decimal_round_trip(n);
    assert(is_digit(decimal(n)[i]));
}

proof fn lemma_header_shape(command: u8, fields: Seq<nat>)
    ensures
        header(command, fields).len() > 0,
        header(command, fields)[0] == command,
        forall|i: int|
            0 < i < header(command, fields).len() ==> #[trigger] header(command, fields)[i] == 32
                || 48 <= header(command, fields)[i] <= 57,
        fields.len() == 0 ==> header(command, fields).len() == 1,
        fields.len() > 0 ==> header(command, fields).len() > 2,
    decreases fields.len(),
{
    if fields.len() > 0 {
        let rest = header(command, fields.drop_last());
        let digits = decimal(fields.last());
        lemma_header_shape(command, fields.drop_last());
        lemma_decimal_round_trip(fields.last());
        let all = header(command, fields);
        assert(all == rest.push(32) + digits);
        assert forall|i: int| 0 < i < all.len() implies #[trigger] all[i] == 32 || 48 <= all[i]
            <= 57 by {
            if i < rest.len() {
                assert(all[i] == rest[i]);
            } else if i > rest.len() {
                assert(all[i] == digits[i - rest.len() - 1]);
                lemma_decimal_bytes(fields.last(), i - rest.len() - 1);
            }
        }
    }
}

/// A header can be read in one way only.
pub proof fn lemma_header_injective(a: u8, xs: Seq<nat>, b: u8, ys: Seq<nat>)
    requires
        header(a, xs) == header(b, ys),
    ensures
        a == b,
        xs == ys,
    decreases xs.len(),
{
    lemma_header_shape(a, xs);
    lemma_header_shape(b, ys);
    if xs.len() == 0 || ys.len() == 0 {
        assert(xs =~= ys);
    } else {
        let all = header(a, xs);
        let p = header(a, xs.drop_last());
        let q = header(b, ys.drop_last());
        let m = decimal(xs.last());
        let n = decimal(ys.last());
        assert(all == p.push(32) + m);
        assert(all == q.push(32) + n);
        if p.len() < q.len() {
            assert(all[q.len() as int] == 32);
            assert(all[q.len() as int] == m[q.len() - p.len() - 1]);
            lemma_decimal_bytes(xs.last(), q.len() - p.len() - 1);
        }
        if q.len() < p.len() {
            assert(all[p.len() as int] == 32);
            assert(all[p.len() as int] == n[p.len() - q.len() - 1]);
            lemma_decimal_bytes(ys.last(), p.len() - q.len() - 1);
        }
        assert(p =~= all.take(p.len() as int));
        assert(q =~= all.take(p.len() as int));
        assert(m =~= all.subrange((p.len() + 1) as int, all.len() as int));
        assert(n =~= all.subrange((p.len() + 1) as int, all.len() as int));
        lemma_decimal_injective(xs.last(), ys.last());
        lemma_header_injective(a, xs.drop_last(), b, ys.drop_last());
        assert(xs =~= xs.drop_last().push(xs.last()));
        assert(ys =~= ys.drop_last().push(ys.last()));
    }
}

/// A line is what comes before the first line feed.
pub proof fn lemma_first_line(x: Seq<u8>, a: Seq<u8>, y: Seq<u8>, b: Seq<u8>)
    requires
        x.push(10) + a == y.push(10) + b,
        forall|i: int| 0 <= i < x.len() ==> #[trigger] x[i] != 10,
        forall|i: int| 0 <= i < y.len() ==> #[trigger] y[i] != 10,
    ensures
        x == y,
        a == b,
{
    let all = x.push(10) + a;
    assert(all[x.len() as int] == 10);
    assert(all == y.push(10) + b);
    assert(all[y.len() as int] == 10);
    if x.len() < y.len() {
        assert(all[x.len() as int] == y[x.len() as int]);
    }
    if y.len() < x.len() {
        assert(all[y.len() as int] == x[y.len() as int]);
    }
    assert(x =~= all.take(x.len() as int));
    assert(y =~= all.take(x.len() as int));
    assert(a =~= all.subrange((x.len() + 1) as int, all.len() as int));
    assert(b =~= all.subrange((x.len() + 1) as int, all.len() as int));
}

/// A frame can be read in one way only: its command, its fields and its body
/// are those that it was made of.
pub proof fn law_frame_reads_back(
    a: u8,
    xs: Seq<nat>,
    body: Seq<u8>,
    b: u8,
    ys: Seq<nat>,
    other_body: Seq<u8>,
)
    requires
        frame(a, xs, body) == frame(b, ys, other_body),
        a != 10,
        b != 10,
    ensures
        a == b,
        xs == ys,
        body == other_body,
{
    lemma_header_shape(a, xs);
    lemma_header_shape(b, ys);
    lemma_first_line(header(a, xs), body, header(b, ys), other_body);
    lemma_header_injective(a, xs, b, ys);
}

/// The same of a frame with a flag that is no digit and no line feed; and none
/// of those is a frame without a flag.
pub proof fn law_flagged_frame_reads_back(
    a: u8,
    xs: Seq<nat>,
    flag: u8,
    body: Seq<u8>,
    b: u8,
    ys: Seq<nat>,
    other_body: Seq<u8>,
)
    requires
        a != 10,
        b != 10,
        flag != 10,
        flag != 32,
        !is_digit(flag),
    ensures
        flagged_frame(a, xs, flag, body) != frame(b, ys, other_body),
        flagged_frame(a, xs, flag, body) == flagged_frame(b, ys, flag, other_body) ==> a == b && xs
            == ys && body == other_body,
{
    lemma_header_shape(a, xs);
    lemma_header_shape(b, ys);
    let x = header(a, xs).push(32).push(flag);
    assert forall|i: int| 0 <= i < x.len() implies #[trigger] x[i] != 10 by {
        if i < header(a, xs).len() {
            assert(x[i] == header(a, xs)[i]);
        }
    }
    if flagged_frame(a, xs, flag, body) == frame(b, ys, other_body) {
        lemma_first_line(x, body, header(b, ys), other_body);
        let last = header(b, ys).len() - 1;
        assert(header(b, ys)[last] == flag);
        assert(x.len() > 1);
        assert(false);
    }
    let y = header(b, ys).push(32).push(flag);
    assert forall|i: int| 0 <= i < y.len() implies #[trigger] y[i] != 10 by {
        if i < header(b, ys).len() {
            assert(y[i] == header(b, ys)[i]);
        }
    }
    if flagged_frame(a, xs, flag, body) == flagged_frame(b, ys, flag, other_body) {
        lemma_first_line(x, body, y, other_body);
        assert(header(a, xs) =~= x.take(x.len() - 2));
        assert(header(b, ys) =~= y.take(y.len() - 2));
        lemma_header_injective(a, xs, b, ys);
    }
}

/// The whole seconds of a time to live.
pub open spec fn whole_seconds(ttl: Option<u128>) -> Option<nat> {
    match ttl {
        Some(nanos) => Some((nanos / NANOS_PER_SECOND) as nat),
        None => None,
    }
}

proof fn lemma_ttl_fields(fields: Seq<nat>, a: Option<u128>, others: Seq<nat>, b: Option<u128>)
    requires
        fields.len() == others.len(),
        fields + ttl_fields(a) == others + ttl_fields(b),
    ensures
        fields == others,
        whole_seconds(a) == whole_seconds(b),
{
    let all = fields + ttl_fields(a);
    assert(fields =~= all.take(fields.len() as int));
    assert(others =~= all.take(fields.len() as int));
    assert(ttl_fields(a) =~= all.subrange(fields.len() as int, all.len() as int));
    assert(ttl_fields(b) =~= all.subrange(fields.len() as int, all.len() as int));
    assert(ttl_fields(a).len() == ttl_fields(b).len());
    if ttl_fields(a).len() > 0 {
        assert(ttl_fields(a)[0] == ttl_fields(b)[0]);
    }
}

/// Splits a body whose parts have known lengths.
proof fn lemma_split(a: Seq<u8>, b: Seq<u8>, c: Seq<u8>, d: Seq<u8>)
    requires
        a + b == c + d,
        a.len() == c.len(),
    ensures
        a == c,
        b == d,
{
    let all = a + b;
    assert(a =~= all.take(a.len() as int));
    assert(c =~= all.take(a.len() as int));
    assert(b =~= all.subrange(a.len() as int, all.len() as int));
    assert(d =~= all.subrange(a.len() as int, all.len() as int));
}

/// What a store frame carries can be read back from it: the key, the value and
/// the whole seconds of the time to live.
pub proof fn law_set_frame_reads_back(
    key: KeyView,
    value: Seq<u8>,
    ttl: Option<u128>,
    other: KeyView,
    other_value: Seq<u8>,
    other_ttl: Option<u128>,
)
    requires
        set_frame(key, value, ttl) == set_frame(other, other_value, other_ttl),
    ensures
        key == other,
        value == other_value,
        whole_seconds(ttl) == whole_seconds(other_ttl),
{
    let a = key.namespace.len() > 0;
    let b = other.namespace.len() > 0;
    let xs = if a {
        seq![key.namespace.len(), key.name.len(), value.len()]
    } else {
        seq![key.name.len(), value.len()]
    };
    let ys = if b {
        seq![other.namespace.len(), other.name.len(), other_value.len()]
    } else {
        seq![other.name.len(), other_value.len()]
    };
    let body = if a {
        key.namespace + key.name + value
    } else {
        key.name + value
    };
    let other_body = if b {
        other.namespace + other.name + other_value
    } else {
        other.name + other_value
    };
    law_frame_reads_back(
        if a {
            115
        } else {
            83
        },
        xs + ttl_fields(ttl),
        body,
        if b {
            115
        } else {
            83
        },
        ys + ttl_fields(other_ttl),
        other_body,
    );
    lemma_ttl_fields(xs, ttl, ys, other_ttl);
    assert(xs[0] == ys[0] && xs[1] == ys[1]);
    if a {
        assert(xs[2] == ys[2]);
        lemma_split(
            key.namespace + key.name,
            value,
            other.namespace + other.name,
            other_value,
        );
        lemma_split(key.namespace, key.name, other.namespace, other.name);
    } else {
        lemma_split(key.name, value, other.name, other_value);
        assert(key.namespace =~= other.namespace);
    }
}

/// What a handoff frame carries can be read back from it; a frame that asks to
/// keep what is there is never taken for one that does not.
pub proof fn law_handoff_frame_reads_back(
    key: KeyView,
    value: Seq<u8>,
    ttl: Option<u128>,
    if_absent: bool,
    token: Seq<char>,
    other: KeyView,
    other_value: Seq<u8>,
    other_ttl: Option<u128>,
    other_if_absent: bool,
    other_token: Seq<char>,
)
    requires
        handoff_frame(key, value, ttl, if_absent, token) == handoff_frame(
            other,
            other_value,
            other_ttl,
            other_if_absent,
            other_token,
        ),
    ensures
        key == other,
        value == other_value,
        whole_seconds(ttl) == whole_seconds(other_ttl),
        if_absent == other_if_absent,
        token == other_token,
{
    let xs = handoff_fields(key, value, ttl, token);
    let ys = handoff_fields(other, other_value, other_ttl, other_token);
    let body = text_bytes(token) + key.namespace + key.name + value;
    let other_body = text_bytes(other_token) + other.namespace + other.name + other_value;
    law_flagged_frame_reads_back(85, xs, 65, body, 85, ys, other_body);
    law_flagged_frame_reads_back(85, ys, 65, other_body, 85, xs, body);
    if !if_absent && !other_if_absent {
        law_frame_reads_back(85, xs, body, 85, ys, other_body);
    }
    let fixed = seq![key.namespace.len(), key.name.len(), value.len(), text_bytes(token).len()];
    let others = seq![
        other.namespace.len(),
        other.name.len(),
        other_value.len(),
        text_bytes(other_token).len(),
    ];
    lemma_ttl_fields(fixed, ttl, others, other_ttl);
    assert(fixed[0] == others[0] && fixed[1] == others[1] && fixed[2] == others[2] && fixed[3]
        == others[3]);
    lemma_split(
        text_bytes(token) + key.namespace + key.name,
        value,
        text_bytes(other_token) + other.namespace + other.name,
        other_value,
    );
    lemma_split(
        text_bytes(token) + key.namespace,
        key.name,
        text_bytes(other_token) + other.namespace,
        other.name,
    );
    lemma_split(text_bytes(token), key.namespace, text_bytes(other_token), other.namespace);
    lemma_text_bytes_injective(token, other_token);
}

/// What a receiver takes a frame for, who reads up to the first line feed: the
/// command it opens with, the fields behind the space that follows, each a
/// number unless it is none, and the rest as the body.
pub open spec fn read_as(
    bytes: Seq<u8>,
    command: u8,
    fields: Seq<Option<nat>>,
    body: Seq<u8>,
) -> bool {
    let end = position(bytes, 10u8) as int;
    &&& 0 < end < bytes.len()
    &&& bytes[0] == command
    &&& bytes.skip(end + 1) == body
    &&& if fields.len() == 0 {
        end == 1
    } else {
        end >= 2 && bytes[1] == 32 && numbers(bytes.subrange(2, end)) == fields
    }
}

/// Whether a receiver can hold every one of the numbers.
pub open spec fn fields_fit(fields: Seq<nat>) -> bool {
    forall|i: int| 0 <= i < fields.len() ==> #[trigger] fields[i] <= usize::MAX
}

proof fn lemma_header_numbers(command: u8, fields: Seq<nat>)
    requires
        fields.len() > 0,
        fields_fit(fields),
    ensures
        header(command, fields).len() > 2,
        header(command, fields)[1] == 32,
        numbers(header(command, fields).skip(2)) == fields.map_values(|n: nat| Some(n)),
    decreases fields.len(),
{
    lemma_header_shape(command, fields);
    let rest = fields.drop_last();
    let digits = decimal(fields.last());
    let somes = fields.map_values(|n: nat| Some(n));
    let all = header(command, fields);
    assert(all == header(command, rest).push(32) + digits);
    assert(fields[fields.len() - 1] <= usize::MAX);
    lemma_numbers_split(fields.last(), Seq::empty());
    if rest.len() == 0 {
        assert(header(command, rest) =~= seq![command]);
        assert(all.skip(2) =~= digits);
        assert(somes =~= seq![Some(fields.last())]);
    } else {
        lemma_header_numbers(command, rest);
        let before = header(command, rest);
        assert(all.skip(2) =~= before.skip(2).push(32) + digits);
        assert(all[1] == before[1]);
        lemma_numbers_concat(before.skip(2), digits);
        assert(somes =~= rest.map_values(|n: nat| Some(n)) + seq![Some(fields.last())]);
    }
}

/// A receiver takes a frame for what it was made of: its command, its numbers
/// and its body.
pub proof fn law_frame_is_read_as_made(command: u8, fields: Seq<nat>, body: Seq<u8>)
    requires
        command != 10,
        fields_fit(fields),
    ensures
        read_as(
            frame(command, fields, body),
            command,
            fields.map_values(|n: nat| Some(n)),
            body,
        ),
{
    lemma_header_shape(command, fields);
    let head = header(command, fields);
    let bytes = frame(command, fields, body);
    assert(bytes == head.push(10) + body);
    assert forall|i: int| 0 <= i < head.len() implies bytes[i] != 10 by {
        assert(bytes[i] == head[i]);
    }
    assert(bytes[head.len() as int] == 10);
    lemma_is_position(bytes, 10u8, head.len() as int);
    assert(bytes.skip(head.len() as int + 1) =~= body);
    if fields.len() > 0 {
        lemma_header_numbers(command, fields);
        assert(bytes[1] == head[1]);
        assert(bytes.subrange(2, head.len() as int) =~= head.skip(2));
    }
}

/// The same of a frame with a flag, which is the one field that is no number.
pub proof fn law_flagged_frame_is_read_as_made(
    command: u8,
    fields: Seq<nat>,
    flag: u8,
    body: Seq<u8>,
)
    requires
        command != 10,
        flag != 10,
        flag != 32,
        !is_digit(flag),
        fields.len() > 0,
        fields_fit(fields),
    ensures
        read_as(
            flagged_frame(command, fields, flag, body),
            command,
            fields.map_values(|n: nat| Some(n)).push(None),
            body,
        ),
        flagged_frame(command, fields, flag, body)[position(
            flagged_frame(command, fields, flag, body),
            10u8,
        ) - 1] == flag,
{
    lemma_header_shape(command, fields);
    lemma_header_numbers(command, fields);
    let head = header(command, fields);
    let line = head.push(32).push(flag);
    let bytes = flagged_frame(command, fields, flag, body);
    assert(bytes == line.push(10) + body);
    assert forall|i: int| 0 <= i < line.len() implies bytes[i] != 10 by {
        assert(bytes[i] == line[i]);
        if i < head.len() {
            assert(line[i] == head[i]);
        }
    }
    assert(bytes[line.len() as int] == 10);
    lemma_is_position(bytes, 10u8, line.len() as int);
    assert(bytes.skip(line.len() as int + 1) =~= body);
    assert(bytes[1] == head[1]);
    assert(bytes.subrange(2, line.len() as int) =~= head.skip(2).push(32) + seq![flag]);
    lemma_numbers_concat(head.skip(2), seq![flag]);
    let last = seq![flag];
    lemma_is_position(last, 32u8, 1);
    assert(numbers(last) =~= seq![None::<nat>]) by {
        assert(last[0] == flag);
        if flag == 43 {
            assert(last.subrange(1, 1).len() == 0);
        }
    }
    assert(numbers(bytes.subrange(2, line.len() as int)) =~= fields.map_values(
        |n: nat| Some(n),
    ).push(None));
}

/// The field of a time to live, as a receiver reads it: the whole seconds.
pub open spec fn seconds_field(ttl: Option<u128>) -> Seq<Option<nat>> {
    match ttl {
        Some(nanos) => seq![Some((nanos / 1_000_000_000) as nat)],
        None => Seq::empty(),
    }
}

/// A receiver of a store frame reads the letter `S` or `s`, the lengths of the
/// namespace (in a namespace), the name and the value, the whole seconds of the
/// time to live if there is one, and then these parts in that order.
pub proof fn law_store_frame_is_read(key: KeyView, value: Seq<u8>, ttl: Option<u128>)
    requires
        key.namespace.len() <= usize::MAX,
        key.name.len() <= usize::MAX,
        value.len() <= usize::MAX,
        ttl matches Some(nanos) ==> nanos / 1_000_000_000 <= usize::MAX,
    ensures
        key.namespace.len() == 0 ==> read_as(
            set_frame(key, value, ttl),
            83,
            seq![Some(key.name.len()), Some(value.len())] + seconds_field(ttl),
            key.name + value,
        ),
        key.namespace.len() > 0 ==> read_as(
            set_frame(key, value, ttl),
            115,
            seq![Some(key.namespace.len()), Some(key.name.len()), Some(value.len())]
                + seconds_field(ttl),
            key.namespace + key.name + value,
        ),
{
    if key.namespace.len() > 0 {
        let fields = seq![key.namespace.len(), key.name.len(), value.len()] + ttl_fields(ttl);
        law_frame_is_read_as_made(115, fields, key.namespace + key.name + value);
        assert(fields.map_values(|n: nat| Some(n)) =~= seq![
            Some(key.namespace.len()),
            Some(key.name.len()),
            Some(value.len()),
        ] + seconds_field(ttl));
    } else {
        let fields = seq![key.name.len(), value.len()] + ttl_fields(ttl);
        law_frame_is_read_as_made(83, fields, key.name + value);
        assert(fields.map_values(|n: nat| Some(n)) =~= seq![
            Some(key.name.len()),
            Some(value.len()),
        ] + seconds_field(ttl));
    }
}

/// A receiver of a handoff frame reads the letter `U`, the lengths of the
/// namespace, the name, the value and the token, the whole seconds of the time
/// to live if there is one, the flag `A` if and only if it is to keep what it
/// has, and then the token, the namespace, the name and the value.
pub proof fn law_handoff_frame_is_read(
    key: KeyView,
    value: Seq<u8>,
    ttl: Option<u128>,
    if_absent: bool,
    token: Seq<char>,
)
    requires
        key.namespace.len() <= usize::MAX,
        key.name.len() <= usize::MAX,
        value.len() <= usize::MAX,
        text_bytes(token).len() <= usize::MAX,
        ttl matches Some(nanos) ==> nanos / 1_000_000_000 <= usize::MAX,
    ensures
        ({
            let lengths = seq![
                Some(key.namespace.len()),
                Some(key.name.len()),
                Some(value.len()),
                Some(text_bytes(token).len()),
            ];
            let bytes = handoff_frame(key, value, ttl, if_absent, token);
            &&& read_as(
                bytes,
                85,
                lengths + seconds_field(ttl) + if if_absent {
                    seq![None]
                } else {
                    Seq::empty()
                },
                text_bytes(token) + key.namespace + key.name + value,
            )
            &&& if_absent ==> bytes[position(bytes, 10u8) - 1] == 65
        }),
{
    let lengths = seq![
        Some(key.namespace.len()),
        Some(key.name.len()),
        Some(value.len()),
        Some(text_bytes(token).len()),
    ];
    let fields = handoff_fields(key, value, ttl, token);
    let body = text_bytes(token) + key.namespace + key.name + value;
    assert(fields.map_values(|n: nat| Some(n)) =~= lengths + seconds_field(ttl));
    if if_absent {
        law_flagged_frame_is_read_as_made(85, fields, 65, body);
        assert((lengths + seconds_field(ttl)).push(None) =~= lengths + seconds_field(ttl) + seq![
            None,
        ]);
    } else {
        law_frame_is_read_as_made(85, fields, body);
        assert(lengths + seconds_field(ttl) =~= lengths + seconds_field(ttl) + Seq::empty());
    }
}

/// A receiver of a deletion reads the letter `D` or `d`, the lengths of the
/// namespace (in a namespace) and the name, and then these; one of a deletion
/// that a peer passes on reads the letter `u`, the length of the token as well,
/// and the token first.
pub proof fn law_deletion_frames_are_read(key: KeyView, token: Seq<char>)
    requires
        key.namespace.len() <= usize::MAX,
        key.name.len() <= usize::MAX,
        text_bytes(token).len() <= usize::MAX,
    ensures
        key.namespace.len() == 0 ==> read_as(
            delete_frame(key),
            68,
            seq![Some(key.name.len())],
            key.name,
        ),
        key.namespace.len() > 0 ==> read_as(
            delete_frame(key),
            100,
            seq![Some(key.namespace.len()), Some(key.name.len())],
            key.namespace + key.name,
        ),
        read_as(
            handoff_delete_frame(key, token),
            117,
            seq![
                Some(key.namespace.len()),
                Some(key.name.len()),
                Some(text_bytes(token).len()),
            ],
            text_bytes(token) + key.namespace + key.name,
        ),
{
    if key.namespace.len() > 0 {
        let fields = seq![key.namespace.len(), key.name.len()];
        law_frame_is_read_as_made(100, fields, key.namespace + key.name);
        assert(fields.map_values(|n: nat| Some(n)) =~= seq![
            Some(key.namespace.len()),
            Some(key.name.len()),
        ]);
    } else {
        let fields = seq![key.name.len()];
        law_frame_is_read_as_made(68, fields, key.name);
        assert(fields.map_values(|n: nat| Some(n)) =~= seq![Some(key.name.len())]);
    }
    let fields = seq![key.namespace.len(), key.name.len(), text_bytes(token).len()];
    law_frame_is_read_as_made(117, fields, text_bytes(token) + key.namespace + key.name);
    assert(fields.map_values(|n: nat| Some(n)) =~= seq![
        Some(key.namespace.len()),
        Some(key.name.len()),
        Some(text_bytes(token).len()),
    ]);
}

/// A receiver of a clear reads the letter `c`, the length of the namespace and
/// the namespace, or the letter `F` alone.
pub proof fn law_clear_frames_are_read(namespace: Seq<u8>)
    requires
        namespace.len() <= usize::MAX,
    ensures
        read_as(
            clear_frame(ClearScopeView::Namespace(namespace)),
            99,
            seq![Some(namespace.len())],
            namespace,
        ),
        read_as(clear_frame(ClearScopeView::All), 70, Seq::empty(), Seq::empty()),
{
    law_frame_is_read_as_made(99, seq![namespace.len()], namespace);
    assert(seq![namespace.len()].map_values(|n: nat| Some(n)) =~= seq![Some(namespace.len())]);
    law_frame_is_read_as_made(70, Seq::empty(), Seq::empty());
    assert(Seq::<nat>::empty().map_values(|n: nat| Some(n)) =~= Seq::<Option<nat>>::empty());
}

/// What a discovery server reads of a node that registers, that is alive, that
/// leaves or that asks for the roster: the letter of each, the lengths and the
/// number between them where there is one, and then the name and the token.
pub proof fn law_registration_frames_are_read(
    name: Seq<char>,
    port: u16,
    replication: Option<usize>,
    token: Seq<char>,
    letter: u8,
)
    requires
        text_bytes(name).len() <= usize::MAX,
        text_bytes(token).len() <= usize::MAX,
        letter != 10,
    ensures
        ({
            let name_length = Some(text_bytes(name).len());
            let token_length = Some(text_bytes(token).len());
            let body = text_bytes(name) + text_bytes(token);
            let factor = match replication {
                Some(known) => known as nat,
                None => 0,
            };
            &&& read_as(
                join_frame(name, port, token),
                74,
                seq![name_length, Some(port as nat), token_length],
                body,
            )
            &&& read_as(
                announce_frame(name, port, token),
                80,
                seq![name_length, Some(port as nat), token_length],
                body,
            )
            &&& read_as(
                heartbeat_frame(name, replication, token),
                72,
                seq![name_length, Some(factor), token_length],
                body,
            )
            &&& read_as(
                identity_frame(letter, name, token),
                letter,
                seq![name_length, token_length],
                body,
            )
        }),
{
    let n = text_bytes(name).len();
    let t = text_bytes(token).len();
    let body = text_bytes(name) + text_bytes(token);
    lemma_three_fields_are_read(74, n, port as nat, t, body);
    lemma_three_fields_are_read(80, n, port as nat, t, body);
    lemma_three_fields_are_read(72, n, reported_replication(replication), t, body);
    lemma_two_fields_are_read(letter, n, t, body);
}

proof fn lemma_two_fields_are_read(command: u8, a: nat, b: nat, body: Seq<u8>)
    requires
        command != 10,
        a <= usize::MAX,
        b <= usize::MAX,
    ensures
        read_as(frame(command, seq![a, b], body), command, seq![Some(a), Some(b)], body),
{
    law_frame_is_read_as_made(command, seq![a, b], body);
    assert(seq![a, b].map_values(|n: nat| Some(n)) =~= seq![Some(a), Some(b)]);
}

proof fn lemma_three_fields_are_read(command: u8, a: nat, b: nat, c: nat, body: Seq<u8>)
    requires
        command != 10,
        a <= usize::MAX,
        b <= usize::MAX,
        c <= usize::MAX,
    ensures
        read_as(
            frame(command, seq![a, b, c], body),
            command,
            seq![Some(a), Some(b), Some(c)],
            body,
        ),
{
    law_frame_is_read_as_made(command, seq![a, b, c], body);
    assert(seq![a, b, c].map_values(|n: nat| Some(n)) =~= seq![Some(a), Some(b), Some(c)]);
}

/// What a discovery server reads of a finished handoff: the letter `C`, the
/// three lengths, and then the node's own name, the joining node's and the
/// token. What a peer reads of a shared secret: the letter `A`, its length, and
/// the secret.
pub proof fn law_report_and_secret_are_read(
    name: Seq<char>,
    joining_name: Seq<char>,
    token: Seq<char>,
    secret: Seq<u8>,
)
    requires
        text_bytes(name).len() <= usize::MAX,
        text_bytes(joining_name).len() <= usize::MAX,
        text_bytes(token).len() <= usize::MAX,
        secret.len() <= usize::MAX,
    ensures
        read_as(
            complete_frame(name, joining_name, token),
            67,
            seq![
                Some(text_bytes(name).len()),
                Some(text_bytes(joining_name).len()),
                Some(text_bytes(token).len()),
            ],
            text_bytes(name) + text_bytes(joining_name) + text_bytes(token),
        ),
        read_as(auth_frame(secret), 65, seq![Some(secret.len())], secret),
{
    let n = text_bytes(name).len();
    let j = text_bytes(joining_name).len();
    let t = text_bytes(token).len();
    law_frame_is_read_as_made(
        67,
        seq![n, j, t],
        text_bytes(name) + text_bytes(joining_name) + text_bytes(token),
    );
    assert(seq![n, j, t].map_values(|n: nat| Some(n)) =~= seq![Some(n), Some(j), Some(t)]);
    law_frame_is_read_as_made(65, seq![secret.len()], secret);
    assert(seq![secret.len()].map_values(|n: nat| Some(n)) =~= seq![Some(secret.len())]);
}

/// What the time to live in a store or handoff frame is can be read back from
/// it, to the second: none is never taken for one, nor one for none.
pub proof fn law_frames_carry_the_time_to_live(
    key: KeyView,
    value: Seq<u8>,
    if_absent: bool,
    token: Seq<char>,
    ttl: Option<u128>,
    other_ttl: Option<u128>,
)
    requires
        set_frame(key, value, ttl) == set_frame(key, value, other_ttl) || handoff_frame(
            key,
            value,
            ttl,
            if_absent,
            token,
        ) == handoff_frame(key, value, other_ttl, if_absent, token),
    ensures
        ttl is Some <==> other_ttl is Some,
        ttl matches Some(nanos) ==> other_ttl matches Some(others) && nanos / 1_000_000_000 == others
            / 1_000_000_000,
{
    if set_frame(key, value, ttl) == set_frame(key, value, other_ttl) {
        law_set_frame_reads_back(key, value, ttl, key, value, other_ttl);
    } else {
        law_handoff_frame_reads_back(
            key,
            value,
            ttl,
            if_absent,
            token,
            key,
            value,
            other_ttl,
            if_absent,
            token,
        );
    }
}

/// What a deletion frame carries can be read back from it: the namespace and
/// the name of the key.
pub proof fn law_delete_frame_reads_back(key: KeyView, other: KeyView)
    requires
        delete_frame(key) == delete_frame(other),
    ensures
        key.namespace == other.namespace,
        key.name == other.name,
{
    let a = key.namespace.len() > 0;
    let b = other.namespace.len() > 0;
    let xs = if a {
        seq![key.namespace.len(), key.name.len()]
    } else {
        seq![key.name.len()]
    };
    let ys = if b {
        seq![other.namespace.len(), other.name.len()]
    } else {
        seq![other.name.len()]
    };
    law_frame_reads_back(
        if a {
            100
        } else {
            68
        },
        xs,
        if a {
            key.namespace + key.name
        } else {
            key.name
        },
        if b {
            100
        } else {
            68
        },
        ys,
        if b {
            other.namespace + other.name
        } else {
            other.name
        },
    );
    assert(xs[0] == ys[0]);
    if a {
        lemma_split(key.namespace, key.name, other.namespace, other.name);
    } else {
        assert(key.namespace =~= other.namespace);
    }
}

/// What a peer's deletion frame carries can be read back from it: the
/// namespace and the name of the key, and the token.
pub proof fn law_handoff_delete_frame_reads_back(
    key: KeyView,
    token: Seq<char>,
    other: KeyView,
    other_token: Seq<char>,
)
    requires
        handoff_delete_frame(key, token) == handoff_delete_frame(other, other_token),
    ensures
        key.namespace == other.namespace,
        key.name == other.name,
        token == other_token,
{
    let xs = seq![key.namespace.len(), key.name.len(), text_bytes(token).len()];
    let ys = seq![other.namespace.len(), other.name.len(), text_bytes(other_token).len()];
    law_frame_reads_back(
        117,
        xs,
        text_bytes(token) + key.namespace + key.name,
        117,
        ys,
        text_bytes(other_token) + other.namespace + other.name,
    );
    assert(xs[0] == ys[0] && xs[1] == ys[1] && xs[2] == ys[2]);
    lemma_split(
        text_bytes(token) + key.namespace,
        key.name,
        text_bytes(other_token) + other.namespace,
        other.name,
    );
    lemma_split(text_bytes(token), key.namespace, text_bytes(other_token), other.namespace);
    lemma_text_bytes_injective(token, other_token);
}

/// What a clear wipes can be read back from its frame: a clear of everything is
/// never taken for one of a namespace, nor one namespace for another.
pub proof fn law_clear_frame_reads_back(scope: ClearScopeView, other: ClearScopeView)
    requires
        clear_frame(scope) == clear_frame(other),
    ensures
        scope == other,
{
    match scope {
        ClearScopeView::Namespace(a) => match other {
            ClearScopeView::Namespace(b) => {
                law_frame_reads_back(99, seq![a.len()], a, 99, seq![b.len()], b);
            },
            ClearScopeView::All => {
                law_frame_reads_back(99, seq![a.len()], a, 70, Seq::empty(), Seq::empty());
            },
        },
        ClearScopeView::All => match other {
            ClearScopeView::Namespace(b) => {
                law_frame_reads_back(70, Seq::empty(), Seq::empty(), 99, seq![b.len()], b);
            },
            ClearScopeView::All => {},
        },
    }
}

/// What a node tells discovery of itself can be read back: the name, the port
/// and the token with which it registers, and the name, the replication factor
/// and the token of a heartbeat. A request to join is never taken for a renewed
/// registration.
pub proof fn law_registration_frames_read_back(
    name: Seq<char>,
    port: u16,
    replication: Option<usize>,
    token: Seq<char>,
    other_name: Seq<char>,
    other_port: u16,
    other_replication: Option<usize>,
    other_token: Seq<char>,
)
    ensures
        join_frame(name, port, token) == join_frame(other_name, other_port, other_token) ==> name
            == other_name && port == other_port && token == other_token,
        announce_frame(name, port, token) == announce_frame(other_name, other_port, other_token)
            ==> name == other_name && port == other_port && token == other_token,
        join_frame(name, port, token) != announce_frame(other_name, other_port, other_token),
        heartbeat_frame(name, replication, token) == heartbeat_frame(
            other_name,
            other_replication,
            other_token,
        ) ==> name == other_name && token == other_token && (replication matches Some(factor)
            ==> factor > 0 ==> other_replication == Some(factor)),
{
    let body = text_bytes(name) + text_bytes(token);
    let other_body = text_bytes(other_name) + text_bytes(other_token);
    let xs = seq![text_bytes(name).len(), port as nat, text_bytes(token).len()];
    let ys = seq![text_bytes(other_name).len(), other_port as nat, text_bytes(other_token).len()];
    if join_frame(name, port, token) == join_frame(other_name, other_port, other_token) {
        law_frame_reads_back(74, xs, body, 74, ys, other_body);
        lemma_name_and_token(name, token, other_name, other_token, xs, ys);
    }
    if announce_frame(name, port, token) == announce_frame(other_name, other_port, other_token) {
        law_frame_reads_back(80, xs, body, 80, ys, other_body);
        lemma_name_and_token(name, token, other_name, other_token, xs, ys);
    }
    if join_frame(name, port, token) == announce_frame(other_name, other_port, other_token) {
        law_frame_reads_back(74, xs, body, 80, ys, other_body);
    }
    if heartbeat_frame(name, replication, token) == heartbeat_frame(
        other_name,
        other_replication,
        other_token,
    ) {
        let us = seq![
            text_bytes(name).len(),
            reported_replication(replication),
            text_bytes(token).len(),
        ];
        let vs = seq![
            text_bytes(other_name).len(),
            reported_replication(other_replication),
            text_bytes(other_token).len(),
        ];
        law_frame_reads_back(72, us, body, 72, vs, other_body);
        assert(us[1] == vs[1]);
        lemma_name_and_token(name, token, other_name, other_token, us, vs);
    }
}

proof fn lemma_name_and_token(
    name: Seq<char>,
    token: Seq<char>,
    other_name: Seq<char>,
    other_token: Seq<char>,
    xs: Seq<nat>,
    ys: Seq<nat>,
)
    requires
        xs == ys,
        xs.len() == 3,
        xs[0] == text_bytes(name).len(),
        ys[0] == text_bytes(other_name).len(),
        text_bytes(name) + text_bytes(token) == text_bytes(other_name) + text_bytes(other_token),
    ensures
        name == other_name,
        token == other_token,
        xs[1] == ys[1],
{
    lemma_split(
        text_bytes(name),
        text_bytes(token),
        text_bytes(other_name),
        text_bytes(other_token),
    );
    lemma_text_bytes_injective(name, other_name);
    lemma_text_bytes_injective(token, other_token);
}

/// What a report of a finished handoff, a presented identity and a presented
/// secret carry can be read back from them.
pub proof fn law_report_identity_and_secret_read_back(
    name: Seq<char>,
    joining_name: Seq<char>,
    token: Seq<char>,
    other_name: Seq<char>,
    other_joining_name: Seq<char>,
    other_token: Seq<char>,
    letter: u8,
    other_letter: u8,
    secret: Seq<u8>,
    other_secret: Seq<u8>,
)
    requires
        letter != 10,
        other_letter != 10,
    ensures
        complete_frame(name, joining_name, token) == complete_frame(
            other_name,
            other_joining_name,
            other_token,
        ) ==> name == other_name && joining_name == other_joining_name && token == other_token,
        identity_frame(letter, name, token) == identity_frame(other_letter, other_name, other_token)
            ==> letter == other_letter && name == other_name && token == other_token,
        auth_frame(secret) == auth_frame(other_secret) ==> secret == other_secret,
{
    if complete_frame(name, joining_name, token) == complete_frame(
        other_name,
        other_joining_name,
        other_token,
    ) {
        let xs = seq![
            text_bytes(name).len(),
            text_bytes(joining_name).len(),
            text_bytes(token).len(),
        ];
        let ys = seq![
            text_bytes(other_name).len(),
            text_bytes(other_joining_name).len(),
            text_bytes(other_token).len(),
        ];
        law_frame_reads_back(
            67,
            xs,
            text_bytes(name) + text_bytes(joining_name) + text_bytes(token),
            67,
            ys,
            text_bytes(other_name) + text_bytes(other_joining_name) + text_bytes(other_token),
        );
        assert(xs[0] == ys[0] && xs[1] == ys[1] && xs[2] == ys[2]);
        lemma_split(
            text_bytes(name) + text_bytes(joining_name),
            text_bytes(token),
            text_bytes(other_name) + text_bytes(other_joining_name),
            text_bytes(other_token),
        );
        lemma_split(
            text_bytes(name),
            text_bytes(joining_name),
            text_bytes(other_name),
            text_bytes(other_joining_name),
        );
        lemma_text_bytes_injective(name, other_name);
        lemma_text_bytes_injective(joining_name, other_joining_name);
        lemma_text_bytes_injective(token, other_token);
    }
    if identity_frame(letter, name, token) == identity_frame(other_letter, other_name, other_token) {
        let xs = seq![text_bytes(name).len(), text_bytes(token).len()];
        let ys = seq![text_bytes(other_name).len(), text_bytes(other_token).len()];
        law_frame_reads_back(
            letter,
            xs,
            text_bytes(name) + text_bytes(token),
            other_letter,
            ys,
            text_bytes(other_name) + text_bytes(other_token),
        );
        assert(xs[0] == ys[0]);
        lemma_split(
            text_bytes(name),
            text_bytes(token),
            text_bytes(other_name),
            text_bytes(other_token),
        );
        lemma_text_bytes_injective(name, other_name);
        lemma_text_bytes_injective(token, other_token);
    }
    if auth_frame(secret) == auth_frame(other_secret) {
        law_frame_reads_back(
            65,
            seq![secret.len()],
            secret,
            65,
            seq![other_secret.len()],
            other_secret,
        );
    }
}

/// Every frame opens with its command.
pub proof fn law_frames_open_with_their_letter(
    command: u8,
    fields: Seq<nat>,
    flag: u8,
    body: Seq<u8>,
)
    ensures
        frame(command, fields, body).len() > 0,
        frame(command, fields, body)[0] == command,
        flagged_frame(command, fields, flag, body).len() > 0,
        flagged_frame(command, fields, flag, body)[0] == command,
{
    lemma_header_shape(command, fields);
    assert(frame(command, fields, body)[0] == header(command, fields)[0]);
    assert(flagged_frame(command, fields, flag, body)[0] == header(command, fields)[0]);
}

/// What a clear wipes is viewed as it is.
pub proof fn law_scope_is_viewed_whole(namespace: Vec<u8>)
    ensures
        ClearScope::Namespace(namespace)@ == ClearScopeView::Namespace(namespace@),
        ClearScope::All@ == ClearScopeView::All,
{
}

/// A node that leaves says so by the letter `V`, and asks for the roster by `T`;
/// either way with its name and its token.
pub proof fn law_leave_and_roster_requests_are_read(
    name: &str,
    token: &str,
    left: Vec<u8>,
    asked: Vec<u8>,
)
    requires
        call_ensures(leave_message, (name, token), left),
        call_ensures(roster_message, (name, token), asked),
        text_bytes(name@).len() <= usize::MAX,
        text_bytes(token@).len() <= usize::MAX,
    ensures
        ({
            let lengths = seq![Some(text_bytes(name@).len()), Some(text_bytes(token@).len())];
            let body = text_bytes(name@) + text_bytes(token@);
            &&& read_as(left@, 86, lengths, body)
            &&& read_as(asked@, 84, lengths, body)
        }),
{
    law_registration_frames_are_read(name@, 0, None, token@, 86);
    law_registration_frames_are_read(name@, 0, None, token@, 84);
}

} // verus!
