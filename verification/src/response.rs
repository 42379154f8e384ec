//! What a node answers.
//!
//! A response is a line of fields and a body. On a connection in tagged mode
//! the line ends with the tag of the request that is answered.
use vstd::prelude::*;

use crate::message::lemma_first_line;
use crate::text::copy_bytes;
use crate::text::decimal;
use crate::text::is_digit;
use crate::text::lemma_decimal_injective;
use crate::text::lemma_decimal_round_trip;
use crate::text::push_bytes;
use crate::text::push_decimal;

verus! {

/// The answer for one key of a read of several.
#[derive(Debug, PartialEq, Eq)]
pub enum MultiEntry {
    Value(Vec<u8>),
    NotFound,
    WrongNode,
}

#[verifier::ext_equal]
pub enum MultiEntryView {
    Value(Seq<u8>),
    NotFound,
    WrongNode,
}

impl View for MultiEntry {
    type V = MultiEntryView;

    open spec fn view(&self) -> MultiEntryView {
        match *self {
            MultiEntry::Value(value) => MultiEntryView::Value(value@),
            MultiEntry::NotFound => MultiEntryView::NotFound,
            MultiEntry::WrongNode => MultiEntryView::WrongNode,
        }
    }
}

impl Clone for MultiEntry {
    fn clone(&self) -> (copy: MultiEntry)
        ensures
            copy@ == self@,
    {
        match self {
            MultiEntry::Value(value) => MultiEntry::Value(copy_bytes(value.as_slice())),
            MultiEntry::NotFound => MultiEntry::NotFound,
            MultiEntry::WrongNode => MultiEntry::WrongNode,
        }
    }
}

/// The views of a list of answers.
pub open spec fn multi_views(entries: Seq<MultiEntry>) -> Seq<MultiEntryView> {
    entries.map_values(|entry: MultiEntry| entry@)
}

/// The answer for one key of a write of several.
#[derive(Clone, Copy, Debug, PartialEq, Eq, Structural)]
pub enum MultiAckEntry {
    Stored,
    WrongNode,
}

#[derive(Debug, PartialEq, Eq)]
pub enum Response {
    Value(Vec<u8>),
    NotFound,
    Stored,
    Deleted,
    /// Another node owns the key.
    WrongNode,
    /// No more connections are served; it is sent unasked.
    Busy,
    AuthOk,
    Unauthorized,
    /// A handoff of this many entries begins.
    MigrationAccepted(usize),
    MigrationRejected,
    MigrationCancelled,
    Multi(Vec<MultiEntry>),
    MultiAck(Vec<MultiAckEntry>),
    /// The new value, and what is left of its time to live.
    Incremented(Vec<u8>, Option<u128>),
    Cleared,
    /// Any other answer, by its fields and its body.
    Plain { head: Vec<u8>, body: Vec<u8> },
}

/// The field of one entry of a read of several: the length of the value, or a
/// letter.
pub open spec fn multi_field(entry: MultiEntryView) -> Seq<u8> {
    match entry {
        MultiEntryView::Value(value) => decimal(value.len()),
        MultiEntryView::NotFound => seq![78u8],
        MultiEntryView::WrongNode => seq![87u8],
    }
}

pub open spec fn multi_fields(entries: Seq<MultiEntryView>) -> Seq<u8>
    decreases entries.len(),
{
    if entries.len() == 0 {
        Seq::empty()
    } else {
        multi_fields(entries.drop_last()).push(32) + multi_field(entries.last())
    }
}

/// The values of a read of several, one behind the other.
pub open spec fn multi_body(entries: Seq<MultiEntryView>) -> Seq<u8>
    decreases entries.len(),
{
    if entries.len() == 0 {
        Seq::empty()
    } else {
        multi_body(entries.drop_last()) + match entries.last() {
            MultiEntryView::Value(value) => value,
            _ => Seq::empty(),
        }
    }
}

pub open spec fn ack_letter(entry: MultiAckEntry) -> u8 {
    match entry {
        MultiAckEntry::Stored => 83,
        MultiAckEntry::WrongNode => 87,
    }
}

pub open spec fn ack_fields(entries: Seq<MultiAckEntry>) -> Seq<u8>
    decreases entries.len(),
{
    if entries.len() == 0 {
        Seq::empty()
    } else {
        ack_fields(entries.drop_last()).push(32).push(ack_letter(entries.last()))
    }
}

/// The fields of a response.
pub open spec fn head_of(response: Response) -> Seq<u8> {
    match response {
        Response::Value(value) => seq![86u8, 32u8] + decimal(value@.len()),
        Response::NotFound => seq![78u8],
        Response::Stored => seq![83u8],
        Response::Deleted => seq![68u8],
        Response::WrongNode => seq![87u8],
        Response::Busy => seq![66u8],
        Response::AuthOk => seq![79u8, 110u8],
        Response::Unauthorized => seq![69u8, 110u8],
        Response::MigrationAccepted(entries) => seq![65u8, 32u8] + decimal(entries as nat),
        Response::MigrationRejected => seq![82u8],
        Response::MigrationCancelled => seq![65u8],
        Response::Multi(entries) => seq![77u8, 32u8] + decimal(entries@.len()) + multi_fields(
            multi_views(entries@),
        ),
        Response::MultiAck(entries) => seq![79u8, 32u8] + decimal(entries@.len()) + ack_fields(
            entries@,
        ),
        Response::Incremented(value, _) => seq![73u8, 32u8] + decimal(value@.len()),
        Response::Cleared => seq![67u8],
        Response::Plain { head, .. } => head@,
    }
}

/// The body of a response.
pub open spec fn body_of(response: Response) -> Seq<u8> {
    match response {
        Response::Value(value) => value@,
        Response::Multi(entries) => multi_body(multi_views(entries@)),
        Response::Incremented(value, _) => value@,
        Response::Plain { body, .. } => body@,
        _ => Seq::empty(),
    }
}

/// The last field of the line on a tagged connection. `Busy` is sent unasked
/// and carries none.
pub open spec fn tag_field(response: Response, tag: Option<u32>) -> Seq<u8> {
    match tag {
        Some(number) => if response is Busy {
            Seq::empty()
        } else {
            seq![32u8] + decimal(number as nat)
        },
        None => Seq::empty(),
    }
}

/// A response on the wire.
pub open spec fn encoded(response: Response, tag: Option<u32>) -> Seq<u8> {
    (head_of(response) + tag_field(response, tag)).push(10) + body_of(response)
}

/// The tag field of a response that carries one.
pub open spec fn plain_tag_field(tag: Option<u32>) -> Seq<u8> {
    match tag {
        Some(number) => seq![32u8] + decimal(number as nat),
        None => Seq::empty(),
    }
}

/// The response to a read of several keys, by the answers for them.
pub open spec fn multi_reply(entries: Seq<MultiEntryView>, tag: Option<u32>) -> Seq<u8> {
    (seq![77u8, 32u8] + decimal(entries.len()) + multi_fields(entries) + plain_tag_field(tag)).push(
        10,
    ) + multi_body(entries)
}

/// The response to a write of several keys, by the answers for them.
pub open spec fn ack_reply(entries: Seq<MultiAckEntry>, tag: Option<u32>) -> Seq<u8> {
    (seq![79u8, 32u8] + decimal(entries.len()) + ack_fields(entries) + plain_tag_field(tag)).push(10)
}

/// The reply to an authentication that asked for tagged mode.
pub open spec fn identity_tagged(response: Response) -> Seq<u8> {
    head_of(response).push(84).push(10) + body_of(response)
}

fn letter(byte: u8) -> (head: Vec<u8>)
    ensures
        head@ == seq![byte],
{
    let mut head: Vec<u8> = Vec::new();
    head.push(byte);
    assert(head@ =~= seq![byte]);
    head
}

fn two_letters(first: u8, second: u8) -> (head: Vec<u8>)
    ensures
        head@ == seq![first, second],
{
    let mut head = letter(first);
    head.push(second);
    assert(head@ =~= seq![first, second]);
    head
}

fn letter_and_number(byte: u8, number: u128) -> (head: Vec<u8>)
    ensures
        head@ == seq![byte, 32u8] + decimal(number as nat),
{
    let mut head = two_letters(byte, 32);
    push_decimal(&mut head, number);
    head
}

fn push_multi_fields(head: &mut Vec<u8>, entries: &Vec<MultiEntry>)
    ensures
        final(head)@ == old(head)@ + multi_fields(multi_views(entries@)),
{
    let ghost views = multi_views(entries@);
    let mut index: usize = 0;
    assert(head@ =~= old(head)@ + multi_fields(views.take(0)));
    while index < entries.len()
        invariant
            index <= entries.len(),
            views == multi_views(entries@),
            head@ == old(head)@ + multi_fields(views.take(index as int)),
        decreases entries.len() - index,
    {
        assert(views.take(index + 1).drop_last() =~= views.take(index as int));
        assert(views.take(index + 1).last() == entries@[index as int]@);
        head.push(32);
        match &entries[index] {
            MultiEntry::Value(value) => {
                push_decimal(head, value.len() as u128);
            },
            MultiEntry::NotFound => {
                head.push(78);
            },
            MultiEntry::WrongNode => {
                head.push(87);
            },
        }
        assert(head@ =~= old(head)@ + multi_fields(views.take(index + 1)));
        index += 1;
    }
    assert(views.take(entries@.len() as int) =~= views);
}

fn push_multi_body(out: &mut Vec<u8>, entries: &Vec<MultiEntry>)
    ensures
        final(out)@ == old(out)@ + multi_body(multi_views(entries@)),
{
    let ghost views = multi_views(entries@);
    let mut index: usize = 0;
    assert(out@ =~= old(out)@ + multi_body(views.take(0)));
    while index < entries.len()
        invariant
            index <= entries.len(),
            views == multi_views(entries@),
            out@ == old(out)@ + multi_body(views.take(index as int)),
        decreases entries.len() - index,
    {
        assert(views.take(index + 1).drop_last() =~= views.take(index as int));
        assert(views.take(index + 1).last() == entries@[index as int]@);
        match &entries[index] {
            MultiEntry::Value(value) => {
                push_bytes(out, value.as_slice());
            },
            MultiEntry::NotFound => {},
            MultiEntry::WrongNode => {},
        }
        assert(out@ =~= old(out)@ + multi_body(views.take(index + 1)));
        index += 1;
    }
    assert(views.take(entries@.len() as int) =~= views);
}

fn push_ack_fields(head: &mut Vec<u8>, entries: &Vec<MultiAckEntry>)
    ensures
        final(head)@ == old(head)@ + ack_fields(entries@),
{
    let mut index: usize = 0;
    assert(head@ =~= old(head)@ + ack_fields(entries@.take(0)));
    while index < entries.len()
        invariant
            index <= entries.len(),
            head@ == old(head)@ + ack_fields(entries@.take(index as int)),
        decreases entries.len() - index,
    {
        assert(entries@.take(index + 1).drop_last() =~= entries@.take(index as int));
        head.push(32);
        match entries[index] {
            MultiAckEntry::Stored => {
                head.push(83);
            },
            MultiAckEntry::WrongNode => {
                head.push(87);
            },
        }
        assert(head@ =~= old(head)@ + ack_fields(entries@.take(index + 1)));
        index += 1;
    }
    assert(entries@.take(entries@.len() as int) =~= entries@);
}

impl Response {
    fn head(&self) -> (head: Vec<u8>)
        ensures
            head@ == head_of(*self),
    {
        match self {
            Response::Value(value) => letter_and_number(86, value.len() as u128),
            Response::NotFound => letter(78),
            Response::Stored => letter(83),
            Response::Deleted => letter(68),
            Response::WrongNode => letter(87),
            Response::Busy => letter(66),
            Response::AuthOk => two_letters(79, 110),
            Response::Unauthorized => two_letters(69, 110),
            Response::MigrationAccepted(entries) => letter_and_number(65, *entries as u128),
            Response::MigrationRejected => letter(82),
            Response::MigrationCancelled => letter(65),
            Response::Multi(entries) => {
                let mut head = letter_and_number(77, entries.len() as u128);
                push_multi_fields(&mut head, entries);
                head
            },
            Response::MultiAck(entries) => {
                let mut head = letter_and_number(79, entries.len() as u128);
                push_ack_fields(&mut head, entries);
                head
            },
            Response::Incremented(value, _) => letter_and_number(73, value.len() as u128),
            Response::Cleared => letter(67),
            Response::Plain { head, .. } => copy_bytes(head.as_slice()),
        }
    }

    fn push_body(&self, out: &mut Vec<u8>)
        ensures
            final(out)@ == old(out)@ + body_of(*self),
    {
        match self {
            Response::Value(value) => push_bytes(out, value.as_slice()),
            Response::Multi(entries) => push_multi_body(out, entries),
            Response::Incremented(value, _) => push_bytes(out, value.as_slice()),
            Response::Plain { body, .. } => push_bytes(out, body.as_slice()),
            _ => {
                assert(out@ =~= old(out)@ + body_of(*self));
            },
        }
    }

    /// The response without a tag.
    pub fn encode(&self) -> (bytes: Vec<u8>)
        ensures
            bytes@ == encoded(*self, None),
    {
        let mut bytes = self.head();
        bytes.push(10);
        self.push_body(&mut bytes);
        assert(bytes@ =~= encoded(*self, None));
        bytes
    }

    /// The response with a tag.
    pub fn encode_with_tag(&self, tag: u32) -> (bytes: Vec<u8>)
        ensures
            bytes@ == encoded(*self, Some(tag)),
    {
        let mut bytes = self.head();
        match self {
            Response::Busy => {},
            _ => {
                bytes.push(32);
                push_decimal(&mut bytes, tag as u128);
            },
        }
        bytes.push(10);
        self.push_body(&mut bytes);
        assert(bytes@ =~= encoded(*self, Some(tag)));
        bytes
    }

    /// The reply to an authentication that asked for tagged mode.
    pub fn encode_identity_tagged(&self) -> (bytes: Vec<u8>)
        ensures
            bytes@ == identity_tagged(*self),
    {
        let mut bytes = self.head();
        bytes.push(84);
        bytes.push(10);
        self.push_body(&mut bytes);
        bytes
    }
}

/// The response with the tag of its request, if the request had one.
pub fn encode_response(response: &Response, tag: Option<u32>) -> (bytes: Vec<u8>)
    ensures
        bytes@ == encoded(*response, tag),
{
    match tag {
        Some(number) => response.encode_with_tag(number),
        None => response.encode(),
    }
}

/// The response to a read of several keys.
pub fn encode_multi(entries: Vec<MultiEntry>, tag: Option<u32>) -> (bytes: Vec<u8>)
    ensures
        bytes@ == multi_reply(multi_views(entries@), tag),
{
    let response = Response::Multi(entries);
    let bytes = encode_response(&response, tag);
    assert(bytes@ =~= multi_reply(multi_views(entries@), tag));
    bytes
}

/// The response to a write of several keys.
pub fn encode_multi_ack(entries: Vec<MultiAckEntry>, tag: Option<u32>) -> (bytes: Vec<u8>)
    ensures
        bytes@ == ack_reply(entries@, tag),
{
    let response = Response::MultiAck(entries);
    let bytes = encode_response(&response, tag);
    assert(bytes@ =~= ack_reply(entries@, tag));
    bytes
}

/// A client can tell from a tagged response which request it answers: whatever
/// the answers are, as long as they are lines without a line feed in them, the
/// same bytes have the same tag.
pub proof fn law_tag_identifies_the_request(a: Response, s: u32, b: Response, t: u32)
    requires
        !(a is Busy),
        !(b is Busy),
        forall|i: int| 0 <= i < head_of(a).len() ==> #[trigger] head_of(a)[i] != 10,
        forall|i: int| 0 <= i < head_of(b).len() ==> #[trigger] head_of(b)[i] != 10,
        encoded(a, Some(s)) == encoded(b, Some(t)),
    ensures
        s == t,
        head_of(a) == head_of(b),
        body_of(a) == body_of(b),
{
    let m = decimal(s as nat);
    let n = decimal(t as nat);
    lemma_decimal_round_trip(s as nat);
    lemma_decimal_round_trip(t as nat);
    let p = head_of(a);
    let q = head_of(b);
    let x = p + tag_field(a, Some(s));
    let y = q + tag_field(b, Some(t));
    assert(x =~= p.push(32) + m);
    assert(y =~= q.push(32) + n);
    assert forall|i: int| 0 <= i < x.len() implies #[trigger] x[i] != 10 by {
        if i > p.len() {
            assert(is_digit(m[i - p.len() - 1]));
        } else if i < p.len() {
            assert(x[i] == p[i]);
        }
    }
    assert forall|i: int| 0 <= i < y.len() implies #[trigger] y[i] != 10 by {
        if i > q.len() {
            assert(is_digit(n[i - q.len() - 1]));
        } else if i < q.len() {
            assert(y[i] == q[i]);
        }
    }
    let all = encoded(a, Some(s));
    assert(all == x.push(10) + body_of(a));
    assert(all == y.push(10) + body_of(b));
    assert(all[x.len() as int] == 10);
    assert(all[y.len() as int] == 10);
    if x.len() < y.len() {
        assert(all[x.len() as int] == y[x.len() as int]);
    }
    if y.len() < x.len() {
        assert(all[y.len() as int] == x[y.len() as int]);
    }
    assert(x =~= all.take(x.len() as int));
    assert(y =~= all.take(x.len() as int));
    assert(body_of(a) =~= all.subrange(x.len() as int + 1, all.len() as int));
    assert(body_of(b) =~= all.subrange(x.len() as int + 1, all.len() as int));
    if p.len() < q.len() {
        assert(x[q.len() as int] == m[q.len() - p.len() - 1]);
        assert(y[q.len() as int] == 32);
        assert(is_digit(m[q.len() - p.len() - 1]));
    }
    if q.len() < p.len() {
        assert(y[p.len() as int] == n[p.len() - q.len() - 1]);
        assert(x[p.len() as int] == 32);
        assert(is_digit(n[p.len() - q.len() - 1]));
    }
    assert(p =~= x.take(p.len() as int));
    assert(q =~= x.take(p.len() as int));
    assert(m =~= x.subrange(p.len() as int + 1, x.len() as int));
    assert(n =~= x.subrange(p.len() as int + 1, x.len() as int));
    lemma_decimal_injective(s as nat, t as nat);
}

/// Fields, each behind a space.
spec fn spaced(fields: Seq<Seq<u8>>) -> Seq<u8>
    decreases fields.len(),
{
    if fields.len() == 0 {
        Seq::empty()
    } else {
        spaced(fields.drop_last()).push(32) + fields.last()
    }
}

/// Whether no field holds a space or a line feed.
spec fn are_fields(fields: Seq<Seq<u8>>) -> bool {
    forall|i: int, j: int|
        0 <= i < fields.len() && 0 <= j < fields[i].len() ==> #[trigger] fields[i][j] != 32
            && fields[i][j] != 10
}

proof fn lemma_spaced_push(fields: Seq<Seq<u8>>, field: Seq<u8>)
    ensures
        spaced(fields.push(field)) == spaced(fields).push(32) + field,
{
    assert(fields.push(field).drop_last() =~= fields);
}

proof fn lemma_spaced_add(fields: Seq<Seq<u8>>, more: Seq<Seq<u8>>)
    ensures
        spaced(fields + more) == spaced(fields) + spaced(more),
    decreases more.len(),
{
    if more.len() == 0 {
        assert(fields + more =~= fields);
        assert(spaced(fields) + spaced(more) =~= spaced(fields));
    } else {
        lemma_spaced_add(fields, more.drop_last());
        assert((fields + more).drop_last() =~= fields + more.drop_last());
        assert(spaced(fields + more) =~= spaced(fields) + spaced(more));
    }
}

proof fn lemma_spaced_has_no_line_feed(fields: Seq<Seq<u8>>, i: int)
    requires
        are_fields(fields),
        0 <= i < spaced(fields).len(),
    ensures
        spaced(fields)[i] != 10,
    decreases fields.len(),
{
    let rest = fields.drop_last();
    let last = fields.last();
    assert forall|i: int, j: int|
        0 <= i < rest.len() && 0 <= j < rest[i].len() implies #[trigger] rest[i][j] != 32
        && rest[i][j] != 10 by {
        assert(fields[i][j] != 32 && fields[i][j] != 10);
    }
    if i < spaced(rest).len() {
        lemma_spaced_has_no_line_feed(rest, i);
    } else if i > spaced(rest).len() {
        let j = i - spaced(rest).len() - 1;
        assert(spaced(fields)[i] == last[j]);
        assert(fields[fields.len() - 1][j] != 10);
    }
}

/// A letter and its fields can be read in one way only.
proof fn lemma_spaced_injective(a: u8, xs: Seq<Seq<u8>>, b: u8, ys: Seq<Seq<u8>>)
    requires
        are_fields(xs),
        are_fields(ys),
        seq![a] + spaced(xs) == seq![b] + spaced(ys),
    ensures
        a == b,
        xs == ys,
    decreases xs.len(),
{
    let whole = seq![a] + spaced(xs);
    assert(whole[0] == a && whole[0] == b);
    if xs.len() == 0 || ys.len() == 0 {
        if xs.len() > 0 {
            assert(spaced(xs).len() > 0);
        }
        if ys.len() > 0 {
            assert(spaced(ys).len() > 0);
        }
        assert(xs =~= ys);
    } else {
        let x = seq![a] + spaced(xs.drop_last());
        let y = seq![b] + spaced(ys.drop_last());
        assert(whole =~= x.push(32) + xs.last());
        assert(whole =~= y.push(32) + ys.last());
        if x.len() < y.len() {
            let j = y.len() - x.len() - 1;
            assert(whole[y.len() as int] == 32);
            assert(whole[y.len() as int] == xs.last()[j]);
            assert(xs[xs.len() - 1][j] != 32);
        }
        if y.len() < x.len() {
            let j = x.len() - y.len() - 1;
            assert(whole[x.len() as int] == 32);
            assert(whole[x.len() as int] == ys.last()[j]);
            assert(ys[ys.len() - 1][j] != 32);
        }
        assert(x =~= whole.take(x.len() as int));
        assert(y =~= whole.take(x.len() as int));
        assert(xs.last() =~= whole.skip(x.len() as int + 1));
        assert(ys.last() =~= whole.skip(x.len() as int + 1));
        assert forall|i: int, j: int|
            0 <= i < xs.drop_last().len() && 0 <= j < xs.drop_last()[i].len() implies #[trigger] xs.drop_last()[i][j]
            != 32 && xs.drop_last()[i][j] != 10 by {
            assert(xs[i][j] != 32 && xs[i][j] != 10);
        }
        assert forall|i: int, j: int|
            0 <= i < ys.drop_last().len() && 0 <= j < ys.drop_last()[i].len() implies #[trigger] ys.drop_last()[i][j]
            != 32 && ys.drop_last()[i][j] != 10 by {
            assert(ys[i][j] != 32 && ys[i][j] != 10);
        }
        lemma_spaced_injective(a, xs.drop_last(), b, ys.drop_last());
        assert(xs =~= xs.drop_last().push(xs.last()));
        assert(ys =~= ys.drop_last().push(ys.last()));
    }
}

/// The fields of a line that answers for several keys: their number, one field
/// for each, and the tag if there is one.
spec fn line_fields(fields: Seq<Seq<u8>>, tag: Option<u32>) -> Seq<Seq<u8>> {
    seq![decimal(fields.len())] + fields + match tag {
        Some(number) => seq![decimal(number as nat)],
        None => Seq::empty(),
    }
}

proof fn lemma_line_fields(fields: Seq<Seq<u8>>, tag: Option<u32>)
    requires
        are_fields(fields),
    ensures
        are_fields(line_fields(fields, tag)),
        spaced(line_fields(fields, tag)) == seq![32u8] + decimal(fields.len()) + spaced(fields)
            + plain_tag_field(tag),
{
    let all = line_fields(fields, tag);
    let count = decimal(fields.len());
    let tags = match tag {
        Some(number) => seq![decimal(number as nat)],
        None => Seq::empty(),
    };
    lemma_decimal_round_trip(fields.len());
    if let Some(number) = tag {
        lemma_decimal_round_trip(number as nat);
        lemma_spaced_push(Seq::empty(), decimal(number as nat));
        assert(tags =~= Seq::empty().push(decimal(number as nat)));
        assert(spaced(Seq::empty()) =~= Seq::<u8>::empty());
        assert(spaced(tags) =~= plain_tag_field(tag));
    }
    lemma_spaced_push(Seq::empty(), count);
    assert(seq![count] =~= Seq::empty().push(count));
    assert(spaced(Seq::empty()) =~= Seq::<u8>::empty());
    assert(spaced(seq![count]) =~= seq![32u8] + count);
    lemma_spaced_add(seq![count], fields);
    lemma_spaced_add(seq![count] + fields, tags);
    assert forall|i: int, j: int|
        0 <= i < all.len() && 0 <= j < all[i].len() implies #[trigger] all[i][j] != 32 && all[i][j]
        != 10 by {
        if i == 0 {
            assert(is_digit(count[j]));
        } else if i <= fields.len() {
            assert(fields[i - 1][j] != 32 && fields[i - 1][j] != 10);
        } else {
            assert(is_digit(decimal(tag->0 as nat)[j]));
        }
    }
}

/// Lines that answer for several keys can be read in one way only.
proof fn lemma_lines_read_back(
    letter: u8,
    xs: Seq<Seq<u8>>,
    s: Option<u32>,
    body: Seq<u8>,
    other_letter: u8,
    ys: Seq<Seq<u8>>,
    t: Option<u32>,
    other_body: Seq<u8>,
)
    requires
        letter != 10,
        other_letter != 10,
        are_fields(xs),
        are_fields(ys),
        s is Some <==> t is Some,
        (seq![letter, 32u8] + decimal(xs.len()) + spaced(xs) + plain_tag_field(s)).push(10) + body
            == (seq![other_letter, 32u8] + decimal(ys.len()) + spaced(ys) + plain_tag_field(t)).push(
            10,
        ) + other_body,
    ensures
        letter == other_letter,
        xs == ys,
        s == t,
        body == other_body,
{
    lemma_line_fields(xs, s);
    lemma_line_fields(ys, t);
    let us = line_fields(xs, s);
    let vs = line_fields(ys, t);
    let x = seq![letter] + spaced(us);
    let y = seq![other_letter] + spaced(vs);
    assert(x =~= seq![letter, 32u8] + decimal(xs.len()) + spaced(xs) + plain_tag_field(s));
    assert(y =~= seq![other_letter, 32u8] + decimal(ys.len()) + spaced(ys) + plain_tag_field(t));
    assert forall|i: int| 0 <= i < x.len() implies #[trigger] x[i] != 10 by {
        if i > 0 {
            assert(x[i] == spaced(us)[i - 1]);
            lemma_spaced_has_no_line_feed(us, i - 1);
        }
    }
    assert forall|i: int| 0 <= i < y.len() implies #[trigger] y[i] != 10 by {
        if i > 0 {
            assert(y[i] == spaced(vs)[i - 1]);
            lemma_spaced_has_no_line_feed(vs, i - 1);
        }
    }
    lemma_first_line(x, body, y, other_body);
    lemma_spaced_injective(letter, us, other_letter, vs);
    assert(us.len() == vs.len());
    assert(xs =~= us.subrange(1, xs.len() as int + 1));
    assert(ys =~= vs.subrange(1, ys.len() as int + 1));
    if s is Some {
        assert(us.last() == decimal(s->0 as nat));
        assert(vs.last() == decimal(t->0 as nat));
        lemma_decimal_injective(s->0 as nat, t->0 as nat);
    }
}

spec fn multi_field_list(entries: Seq<MultiEntryView>) -> Seq<Seq<u8>> {
    entries.map_values(|entry: MultiEntryView| multi_field(entry))
}

proof fn lemma_multi_fields_are_spaced(entries: Seq<MultiEntryView>)
    ensures
        multi_fields(entries) == spaced(multi_field_list(entries)),
        are_fields(multi_field_list(entries)),
    decreases entries.len(),
{
    let list = multi_field_list(entries);
    if entries.len() > 0 {
        lemma_multi_fields_are_spaced(entries.drop_last());
        assert(list.drop_last() =~= multi_field_list(entries.drop_last()));
    }
    assert forall|i: int, j: int|
        0 <= i < list.len() && 0 <= j < list[i].len() implies #[trigger] list[i][j] != 32
        && list[i][j] != 10 by {
        if let MultiEntryView::Value(value) = entries[i] {
            lemma_decimal_round_trip(value.len());
            assert(is_digit(decimal(value.len())[j]));
        }
    }
}

spec fn ack_field_list(entries: Seq<MultiAckEntry>) -> Seq<Seq<u8>> {
    entries.map_values(|entry: MultiAckEntry| seq![ack_letter(entry)])
}

proof fn lemma_ack_fields_are_spaced(entries: Seq<MultiAckEntry>)
    ensures
        ack_fields(entries) == spaced(ack_field_list(entries)),
        are_fields(ack_field_list(entries)),
    decreases entries.len(),
{
    let list = ack_field_list(entries);
    if entries.len() > 0 {
        lemma_ack_fields_are_spaced(entries.drop_last());
        assert(list.drop_last() =~= ack_field_list(entries.drop_last()));
        assert(ack_fields(entries) =~= spaced(list.drop_last()).push(32) + list.last());
    }
}

/// Values of known lengths, one behind the other, can be read back.
proof fn lemma_bodies_read_back(xs: Seq<MultiEntryView>, ys: Seq<MultiEntryView>)
    requires
        xs.len() == ys.len(),
        forall|i: int|
            0 <= i < xs.len() ==> #[trigger] multi_field(xs[i]) == multi_field(ys[i]),
        multi_body(xs) == multi_body(ys),
    ensures
        xs == ys,
    decreases xs.len(),
{
    if xs.len() > 0 {
        let last = xs.len() - 1;
        assert(multi_field(xs[last]) == multi_field(ys[last]));
        let x = multi_body(xs.drop_last());
        let y = multi_body(ys.drop_last());
        let whole = multi_body(xs);
        let v = match xs.last() {
            MultiEntryView::Value(value) => value,
            _ => Seq::empty(),
        };
        let w = match ys.last() {
            MultiEntryView::Value(value) => value,
            _ => Seq::empty(),
        };
        lemma_decimal_round_trip(v.len());
        lemma_decimal_round_trip(w.len());
        assert(is_digit(decimal(v.len())[0]) && is_digit(decimal(w.len())[0]));
        assert(seq![78u8][0] == 78 && seq![87u8][0] == 87);
        if xs.last() is Value && ys.last() is Value {
            lemma_decimal_injective(v.len(), w.len());
        }
        assert(v.len() == w.len());
        assert(whole == x + v && whole == y + w);
        assert(x =~= whole.take(x.len() as int));
        assert(y =~= whole.take(x.len() as int));
        assert(v =~= whole.skip(x.len() as int));
        assert(w =~= whole.skip(x.len() as int));
        assert forall|i: int| 0 <= i < xs.drop_last().len() implies #[trigger] multi_field(
            xs.drop_last()[i],
        ) == multi_field(ys.drop_last()[i]) by {
            assert(multi_field(xs[i]) == multi_field(ys[i]));
        }
        lemma_bodies_read_back(xs.drop_last(), ys.drop_last());
        assert(xs =~= xs.drop_last().push(xs.last()));
        assert(ys =~= ys.drop_last().push(ys.last()));
    } else {
        assert(xs =~= ys);
    }
}

/// A client reads from the reply to a read of several keys the answer for each
/// of them, whether it is a value, that there is none, or that the key is
/// another node's; and, on a tagged connection, the tag.
pub proof fn law_multi_reply_reads_back(
    entries: Seq<MultiEntryView>,
    tag: Option<u32>,
    others: Seq<MultiEntryView>,
    other_tag: Option<u32>,
)
    requires
        tag is Some <==> other_tag is Some,
        multi_reply(entries, tag) == multi_reply(others, other_tag),
    ensures
        entries == others,
        tag == other_tag,
{
    let xs = multi_field_list(entries);
    let ys = multi_field_list(others);
    lemma_multi_fields_are_spaced(entries);
    lemma_multi_fields_are_spaced(others);
    lemma_lines_read_back(
        77,
        xs,
        tag,
        multi_body(entries),
        77,
        ys,
        other_tag,
        multi_body(others),
    );
    assert(xs.len() == entries.len() && ys.len() == others.len());
    assert forall|i: int| 0 <= i < entries.len() implies #[trigger] multi_field(entries[i])
        == multi_field(others[i]) by {
        assert(xs[i] == ys[i]);
    }
    lemma_bodies_read_back(entries, others);
}

/// A client reads from the reply to a write of several keys the answer for each
/// of them: one that was stored is never taken for one of another node. On a
/// tagged connection it reads the tag as well.
pub proof fn law_ack_reply_reads_back(
    entries: Seq<MultiAckEntry>,
    tag: Option<u32>,
    others: Seq<MultiAckEntry>,
    other_tag: Option<u32>,
)
    requires
        tag is Some <==> other_tag is Some,
        ack_reply(entries, tag) == ack_reply(others, other_tag),
    ensures
        entries == others,
        tag == other_tag,
{
    let xs = ack_field_list(entries);
    let ys = ack_field_list(others);
    lemma_ack_fields_are_spaced(entries);
    lemma_ack_fields_are_spaced(others);
    assert(ack_reply(entries, tag) =~= ack_reply(entries, tag) + Seq::<u8>::empty());
    assert(ack_reply(others, other_tag) =~= ack_reply(others, other_tag) + Seq::<u8>::empty());
    lemma_lines_read_back(79, xs, tag, Seq::empty(), 79, ys, other_tag, Seq::empty());
    assert(xs.len() == entries.len() && ys.len() == others.len());
    assert forall|i: int| 0 <= i < entries.len() implies entries[i] == others[i] by {
        assert(xs[i] == ys[i]);
        assert(xs[i][0] == ack_letter(entries[i]));
        assert(ys[i][0] == ack_letter(others[i]));
    }
    assert(entries =~= others);
}

/// Whether two responses say the same to a client, who is not told what is left
/// of an incremented value's time to live.
pub open spec fn says_the_same(a: Response, b: Response) -> bool {
    match a {
        Response::Value(value) => b matches Response::Value(other) && value@ == other@,
        Response::NotFound => b is NotFound,
        Response::Stored => b is Stored,
        Response::Deleted => b is Deleted,
        Response::WrongNode => b is WrongNode,
        Response::Busy => b is Busy,
        Response::AuthOk => b is AuthOk,
        Response::Unauthorized => b is Unauthorized,
        Response::MigrationAccepted(entries) => b == Response::MigrationAccepted(entries),
        Response::MigrationRejected => b is MigrationRejected,
        Response::MigrationCancelled => b is MigrationCancelled,
        Response::Multi(entries) => b matches Response::Multi(others) && multi_views(entries@)
            == multi_views(others@),
        Response::MultiAck(entries) => b matches Response::MultiAck(others) && entries@ == others@,
        Response::Incremented(value, _) => b matches Response::Incremented(other, _) && value@
            == other@,
        Response::Cleared => b is Cleared,
        Response::Plain { head, body } => b matches Response::Plain { head: line, body: rest }
            && head@ == line@ && body@ == rest@,
    }
}

proof fn lemma_response_line(response: Response, tag: Option<u32>)
    requires
        !(response is Plain),
        !(response is Multi),
        !(response is MultiAck),
    ensures
        forall|i: int|
            0 <= i < (head_of(response) + tag_field(response, tag)).len() ==> #[trigger] (head_of(
                response,
            ) + tag_field(response, tag))[i] != 10,
{
    let line = head_of(response) + tag_field(response, tag);
    assert forall|i: int| 0 <= i < line.len() implies #[trigger] line[i] != 10 by {
        let head = head_of(response);
        if i < head.len() {
            assert(line[i] == head[i]);
            if i >= 2 {
                match response {
                    Response::Value(value) => {
                        lemma_decimal_round_trip(value@.len());
                        assert(is_digit(decimal(value@.len())[i - 2]));
                    },
                    Response::Incremented(value, _) => {
                        lemma_decimal_round_trip(value@.len());
                        assert(is_digit(decimal(value@.len())[i - 2]));
                    },
                    Response::MigrationAccepted(entries) => {
                        lemma_decimal_round_trip(entries as nat);
                        assert(is_digit(decimal(entries as nat)[i - 2]));
                    },
                    _ => {},
                }
            }
        } else if i > head.len() {
            lemma_decimal_round_trip(tag->0 as nat);
            assert(line[i] == decimal(tag->0 as nat)[i - head.len() - 1]);
            assert(is_digit(decimal(tag->0 as nat)[i - head.len() - 1]));
        }
    }
}

/// The letter that a response opens with.
pub open spec fn opening(response: Response) -> u8 {
    match response {
        Response::Value(_) => 86,
        Response::NotFound => 78,
        Response::Stored => 83,
        Response::Deleted => 68,
        Response::WrongNode => 87,
        Response::Busy => 66,
        Response::AuthOk => 79,
        Response::Unauthorized => 69,
        Response::MigrationAccepted(_) => 65,
        Response::MigrationRejected => 82,
        Response::MigrationCancelled => 65,
        Response::Multi(_) => 77,
        Response::MultiAck(_) => 79,
        Response::Incremented(_, _) => 73,
        Response::Cleared => 67,
        Response::Plain { head, .. } => head@[0],
    }
}

/// Every response opens with its letter, tagged or not.
pub proof fn law_responses_open_with_their_letter(response: Response, tag: Option<u32>)
    requires
        response matches Response::Plain { head, .. } ==> head@.len() > 0,
    ensures
        encoded(response, tag).len() > 0,
        encoded(response, tag)[0] == opening(response),
{
    assert(head_of(response).len() > 0);
    assert(encoded(response, tag)[0] == head_of(response)[0]);
}

/// On the wire no response is taken for another, whatever the tag, which is the
/// same for both: neither for one of another kind nor for one with another
/// value, number or list of answers.
pub proof fn law_responses_are_told_apart(a: Response, b: Response, tag: Option<u32>)
    requires
        !(a is Plain),
        !(b is Plain),
        encoded(a, tag) == encoded(b, tag),
    ensures
        says_the_same(a, b),
{
    law_responses_open_with_their_letter(a, tag);
    law_responses_open_with_their_letter(b, tag);
    match a {
        Response::Multi(entries) => {
            let others = b->Multi_0;
            law_multi_reply_reads_back(multi_views(entries@), tag, multi_views(others@), tag);
        },
        Response::MultiAck(entries) => {
            assert(encoded(a, tag) =~= ack_reply(entries@, tag));
            if let Response::MultiAck(others) = b {
                assert(encoded(b, tag) =~= ack_reply(others@, tag));
                law_ack_reply_reads_back(entries@, tag, others@, tag);
            } else {
                assert(encoded(a, tag)[1] == 32);
                assert(encoded(b, tag)[1] == 110);
            }
        },
        _ => {
            if let Response::MultiAck(others) = b {
                assert(encoded(b, tag) =~= ack_reply(others@, tag));
                assert(encoded(b, tag)[1] == 32);
                assert(encoded(a, tag)[1] == 110);
            } else {
                lemma_single_responses_are_told_apart(a, b, tag);
            }
        },
    }
}

proof fn lemma_single_responses_are_told_apart(a: Response, b: Response, tag: Option<u32>)
    requires
        !(a is Plain || a is Multi || a is MultiAck),
        !(b is Plain || b is Multi || b is MultiAck),
        opening(a) == opening(b),
        encoded(a, tag) == encoded(b, tag),
    ensures
        says_the_same(a, b),
{
    lemma_response_line(a, tag);
    lemma_response_line(b, tag);
    let x = head_of(a) + tag_field(a, tag);
    let y = head_of(b) + tag_field(b, tag);
    lemma_first_line(x, body_of(a), y, body_of(b));
    assert(tag_field(a, tag) == tag_field(b, tag));
    assert(head_of(a).len() == head_of(b).len());
    assert(head_of(a) =~= x.take(head_of(a).len() as int));
    assert(head_of(b) =~= x.take(head_of(a).len() as int));
    if let Response::MigrationAccepted(entries) = a {
        lemma_decimal_round_trip(entries as nat);
        if let Response::MigrationAccepted(others) = b {
            assert(decimal(entries as nat) =~= head_of(a).skip(2));
            assert(decimal(others as nat) =~= head_of(b).skip(2));
            lemma_decimal_injective(entries as nat, others as nat);
        }
    }
    if let Response::MigrationAccepted(others) = b {
        lemma_decimal_round_trip(others as nat);
    }
}

/// The reply to an authentication says whether it was accepted, and whether the
/// connection is tagged from now on.
pub proof fn law_identity_replies_are_told_apart()
    ensures
        encoded(Response::AuthOk, None) == seq![79u8, 110u8, 10u8],
        identity_tagged(Response::AuthOk) == seq![79u8, 110u8, 84u8, 10u8],
        encoded(Response::Unauthorized, None) == seq![69u8, 110u8, 10u8],
        identity_tagged(Response::Unauthorized) == seq![69u8, 110u8, 84u8, 10u8],
{
    assert(encoded(Response::AuthOk, None) =~= seq![79u8, 110u8, 10u8]);
    assert(identity_tagged(Response::AuthOk) =~= seq![79u8, 110u8, 84u8, 10u8]);
    assert(encoded(Response::Unauthorized, None) =~= seq![69u8, 110u8, 10u8]);
    assert(identity_tagged(Response::Unauthorized) =~= seq![69u8, 110u8, 84u8, 10u8]);
}

/// A value goes out whole, behind its length: what follows the line is the value
/// itself, and the length on the line is its length.
pub proof fn law_value_goes_out_whole(value: Vec<u8>, ttl: Option<u128>, tag: Option<u32>)
    ensures
        ({
            let line = decimal(value@.len()) + plain_tag_field(tag);
            &&& encoded(Response::Value(value), tag) == (seq![86u8, 32u8] + line).push(10) + value@
            &&& encoded(Response::Incremented(value, ttl), tag) == (seq![73u8, 32u8] + line).push(
                10,
            ) + value@
        }),
{
    let line = decimal(value@.len()) + plain_tag_field(tag);
    assert(encoded(Response::Value(value), tag) =~= (seq![86u8, 32u8] + line).push(10) + value@);
    assert(encoded(Response::Incremented(value, ttl), tag) =~= (seq![73u8, 32u8] + line).push(10)
        + value@);
}

/// The answers for several keys are viewed one by one, in order, each as what it
/// is.
pub proof fn law_answers_are_viewed_in_order(entries: Seq<MultiEntry>, index: int)
    requires
        0 <= index < entries.len(),
    ensures
        multi_views(entries).len() == entries.len(),
        entries[index] is NotFound <==> multi_views(entries)[index] is NotFound,
        entries[index] is WrongNode <==> multi_views(entries)[index] is WrongNode,
        entries[index] matches MultiEntry::Value(value) ==> multi_views(entries)[index]
            == MultiEntryView::Value(value@),
{
}

} // verus!
