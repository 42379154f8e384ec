//! What a discovery server answers: the acknowledgement of a heartbeat, and the
//! roster with addresses and tokens.
use vstd::prelude::*;
use vstd::slice::slice_subrange;
use vstd::utf8::decode_utf8;
use vstd::utf8::encode_utf8_decode_utf8;
use vstd::utf8::encode_utf8_valid_utf8;
use vstd::utf8::valid_utf8;

use crate::cluster::entry_views;
use crate::cluster::RosterEntry;
use crate::cluster::RosterEntryView;
use crate::fault::failure;
use crate::fault::ConnectionError;
use crate::fault::ErrorKind;
use crate::scan::law_line_is_decided_by_its_bytes;
use crate::scan::lemma_is_position;
use crate::scan::lemma_numbers_split;
use crate::scan::lemma_position;
use crate::scan::line_read;
use crate::scan::number_views;
use crate::scan::numbers;
use crate::scan::position;
use crate::scan::read_line_capped;
use crate::scan::read_numbers;
use crate::scan::received_text;
use crate::scan::text_from_utf8;
use crate::scan::text_from_utf8_lossy;
use crate::scan::LineRead;
use crate::text::copy_bytes;
use crate::text::decimal;
use crate::text::is_digit;
use crate::text::lemma_decimal_round_trip;
use crate::text::text_bytes;
use crate::text::text_views;

verus! {

/// The most members that an acknowledgement may list.
pub const MAX_ROSTER_ENTRIES: usize = 65_536;

/// The longest name or address in an acknowledgement.
pub const MAX_ROSTER_FIELD_LEN: usize = 4096;

/// The longest line of numbers, with its line feed.
pub const MAX_ROSTER_LINE_LEN: usize = 64;

/// The most members that a roster with addresses and tokens may list.
pub const MAX_ADDRESSED_ENTRIES: usize = 4096;

/// The longest name, address or token in such a roster.
pub const MAX_NAME_ADDR_OR_TOKEN_LENGTH: usize = 1024;

/// Why an answer cannot be read.
#[derive(Clone, Copy, Debug, PartialEq, Eq, Structural)]
pub enum ReadFault {
    /// A line is over its limit.
    TooLong,
    /// It is not of the form that was asked for.
    Malformed,
    /// The stream ended within an entry.
    Cut,
    /// The server has not been up for long enough to know its members.
    Grace,
}

impl ReadFault {
    /// Whether `error` is what a reader makes of this, `malformed` being the
    /// text for an answer of another form.
    pub open spec fn reported(self, error: ConnectionError, malformed: Seq<char>) -> bool {
        match self {
            ReadFault::TooLong => error.says(
                ErrorKind::InvalidData,
                "heartbeat ack line exceeded its size cap"@,
            ),
            ReadFault::Malformed => error.says(ErrorKind::InvalidData, malformed),
            ReadFault::Cut => error.says(ErrorKind::UnexpectedEof, "early eof"@),
            ReadFault::Grace => error.says(
                ErrorKind::WouldBlock,
                "discovery is in its startup grace"@,
            ),
        }
    }

    fn report(self, malformed: &'static str) -> (error: ConnectionError)
        ensures
            self.reported(error, malformed@),
    {
        match self {
            ReadFault::TooLong => failure(
                ErrorKind::InvalidData,
                "heartbeat ack line exceeded its size cap",
            ),
            ReadFault::Malformed => failure(ErrorKind::InvalidData, malformed),
            ReadFault::Cut => failure(ErrorKind::UnexpectedEof, "early eof"),
            ReadFault::Grace => failure(ErrorKind::WouldBlock, "discovery is in its startup grace"),
        }
    }
}

/// What the start of a byte stream holds of an answer.
pub enum Piece<T> {
    /// Not all of it yet.
    More,
    Failed(ReadFault),
    /// All of it, in the first `used` bytes.
    Took { value: T, used: nat },
}

/// What comes of a line of numbers, if no more is known of it.
pub open spec fn unread_line<T>(line: LineRead) -> Piece<T> {
    match line {
        LineRead::More => Piece::More,
        LineRead::TooLong => Piece::Failed(ReadFault::TooLong),
        _ => Piece::Failed(ReadFault::Malformed),
    }
}

/// What comes of bytes that are not all there.
pub open spec fn short<T>(ended: bool) -> Piece<T> {
    if ended {
        Piece::Failed(ReadFault::Cut)
    } else {
        Piece::More
    }
}

/// The header of an acknowledgement: `A` alone, or `A` with the number of
/// members and the replication factor.
pub open spec fn ack_header(unread: Seq<u8>, ended: bool) -> Piece<Option<(nat, nat)>> {
    match line_read(unread, ended, MAX_ROSTER_LINE_LEN as nat) {
        LineRead::Whole(end) => {
            let line = unread.take(end as int);
            let found = numbers(line.skip(2));
            if line == seq![65u8] {
                Piece::Took { value: None, used: (end + 1) as nat }
            } else if line.len() >= 2 && line[0] == 65 && line[1] == 32 && found.len() == 2
                && found[0] is Some && found[0]->0 <= MAX_ROSTER_ENTRIES && found[1] is Some
                && found[1]->0 >= 1 {
                Piece::Took { value: Some((found[0]->0, found[1]->0)), used: (end + 1) as nat }
            } else {
                Piece::Failed(ReadFault::Malformed)
            }
        },
        line => unread_line(line),
    }
}

/// One member of an acknowledgement: the lengths of its name and its address on
/// a line, then both, then a line feed. Only the name is kept.
#[verifier::opaque]
pub open spec fn ack_entry(unread: Seq<u8>, ended: bool) -> Piece<Seq<char>> {
    match line_read(unread, ended, MAX_ROSTER_LINE_LEN as nat) {
        LineRead::Whole(end) => {
            let found = numbers(unread.take(end as int));
            if found.len() == 2 && found[0] is Some && found[0]->0 <= MAX_ROSTER_FIELD_LEN
                && found[1] is Some && found[1]->0 <= MAX_ROSTER_FIELD_LEN {
                let start = end + 1;
                let stop = start + found[0]->0 + found[1]->0;
                let name = unread.subrange(start, start + found[0]->0);
                if unread.len() < stop + 1 {
                    short(ended)
                } else if unread[stop] == 10 && valid_utf8(name) {
                    Piece::Took { value: decode_utf8(name), used: (stop + 1) as nat }
                } else {
                    Piece::Failed(ReadFault::Malformed)
                }
            } else {
                Piece::Failed(ReadFault::Malformed)
            }
        },
        line => unread_line(line),
    }
}

/// The names of the next `left` members.
pub open spec fn ack_entries(unread: Seq<u8>, ended: bool, left: nat) -> Piece<Seq<Seq<char>>>
    decreases left,
{
    if left == 0 {
        Piece::Took { value: Seq::empty(), used: 0 }
    } else {
        match ack_entry(unread, ended) {
            Piece::More => Piece::More,
            Piece::Failed(fault) => Piece::Failed(fault),
            Piece::Took { value: name, used } => match ack_entries(
                unread.skip(used as int),
                ended,
                (left - 1) as nat,
            ) {
                Piece::More => Piece::More,
                Piece::Failed(fault) => Piece::Failed(fault),
                Piece::Took { value: names, used: rest } => Piece::Took {
                    value: seq![name] + names,
                    used: used + rest,
                },
            },
        }
    }
}

/// A whole acknowledgement: nothing new, or the names of the members and the
/// replication factor.
pub open spec fn ack_read(unread: Seq<u8>, ended: bool) -> Piece<Option<(Seq<Seq<char>>, nat)>> {
    match ack_header(unread, ended) {
        Piece::More => Piece::More,
        Piece::Failed(fault) => Piece::Failed(fault),
        Piece::Took { value: None, used } => Piece::Took { value: None, used },
        Piece::Took { value: Some((count, replication)), used } => match ack_entries(
            unread.skip(used as int),
            ended,
            count,
        ) {
            Piece::More => Piece::More,
            Piece::Failed(fault) => Piece::Failed(fault),
            Piece::Took { value: names, used: rest } => Piece::Took {
                value: Some((names, replication)),
                used: used + rest,
            },
        },
    }
}

/// What has been received of an acknowledgement.
#[derive(Debug, PartialEq, Eq)]
pub enum AckRead {
    /// Not all of it; the first `used` bytes are taken in.
    More { used: usize },
    Failed(ConnectionError),
    /// All of it; the first `used` bytes belong to it.
    Ready { roster: Option<(Vec<String>, usize)>, used: usize },
}

enum Header {
    More,
    Failed(ReadFault),
    Took { value: Option<(usize, usize)>, used: usize },
}

fn read_ack_header(unread: &[u8], ended: bool) -> (header: Header)
    ensures
        match (ack_header(unread@, ended), header) {
            (Piece::More, Header::More) => true,
            (Piece::Failed(fault), Header::Failed(found)) => fault == found,
            (Piece::Took { value, used }, Header::Took { value: read, used: length }) => {
                &&& used == length <= unread@.len()
                &&& match (value, read) {
                    (None, None) => true,
                    (Some((count, replication)), Some((n, r))) => n == count && r == replication,
                    _ => false,
                }
            },
            _ => false,
        },
{
    proof {
        lemma_position(unread@, 10u8);
    }
    match read_line_capped(unread, ended, MAX_ROSTER_LINE_LEN) {
        LineRead::More => Header::More,
        LineRead::TooLong => Header::Failed(ReadFault::TooLong),
        LineRead::Cut => Header::Failed(ReadFault::Malformed),
        LineRead::Whole(end) => {
            let line = slice_subrange(unread, 0, end);
            assert(line@ =~= unread@.take(end as int));
            if line.len() == 1 && line[0] == 65 {
                assert(line@ =~= seq![65u8]);
                return Header::Took { value: None, used: end + 1 };
            }
            if line.len() < 2 || line[0] != 65 || line[1] != 32 {
                return Header::Failed(ReadFault::Malformed);
            }
            let rest = slice_subrange(line, 2, line.len());
            assert(rest@ =~= line@.skip(2));
            let found = read_numbers(rest);
            assert(number_views(found@).len() == found@.len());
            if found.len() != 2 {
                return Header::Failed(ReadFault::Malformed);
            }
            assert(number_views(found@)[0] == numbers(rest@)[0]);
            assert(number_views(found@)[1] == numbers(rest@)[1]);
            match (found[0], found[1]) {
                (Some(count), Some(replication)) => {
                    if count > MAX_ROSTER_ENTRIES || replication < 1 {
                        return Header::Failed(ReadFault::Malformed);
                    }
                    Header::Took { value: Some((count, replication)), used: end + 1 }
                },
                _ => Header::Failed(ReadFault::Malformed),
            }
        },
    }
}

enum NameEntry {
    More,
    Failed(ReadFault),
    Took { name: String, used: usize },
}

fn read_ack_entry(unread: &[u8], ended: bool) -> (entry: NameEntry)
    ensures
        match (ack_entry(unread@, ended), entry) {
            (Piece::More, NameEntry::More) => true,
            (Piece::Failed(fault), NameEntry::Failed(found)) => fault == found,
            (Piece::Took { value, used }, NameEntry::Took { name, used: length }) => {
                &&& used == length <= unread@.len()
                &&& value == name@
            },
            _ => false,
        },
{
    proof {
        reveal(ack_entry);
        lemma_position(unread@, 10u8);
    }
    match read_line_capped(unread, ended, MAX_ROSTER_LINE_LEN) {
        LineRead::More => NameEntry::More,
        LineRead::TooLong => NameEntry::Failed(ReadFault::TooLong),
        LineRead::Cut => NameEntry::Failed(ReadFault::Malformed),
        LineRead::Whole(end) => {
            let line = slice_subrange(unread, 0, end);
            assert(line@ =~= unread@.take(end as int));
            let found = read_numbers(line);
            assert(number_views(found@).len() == found@.len());
            if found.len() != 2 {
                return NameEntry::Failed(ReadFault::Malformed);
            }
            assert(number_views(found@)[0] == numbers(line@)[0]);
            assert(number_views(found@)[1] == numbers(line@)[1]);
            match (found[0], found[1]) {
                (Some(name_len), Some(addr_len)) => {
                    if name_len > MAX_ROSTER_FIELD_LEN || addr_len > MAX_ROSTER_FIELD_LEN {
                        return NameEntry::Failed(ReadFault::Malformed);
                    }
                    let start: usize = end + 1;
                    let body: usize = name_len + addr_len;
                    if unread.len() - start < body + 1 {
                        if ended {
                            return NameEntry::Failed(ReadFault::Cut);
                        }
                        return NameEntry::More;
                    }
                    if unread[start + body] != 10 {
                        return NameEntry::Failed(ReadFault::Malformed);
                    }
                    let bytes = slice_subrange(unread, start, start + name_len);
                    match text_from_utf8(copy_bytes(bytes)) {
                        Some(name) => NameEntry::Took { name, used: start + body + 1 },
                        None => NameEntry::Failed(ReadFault::Malformed),
                    }
                },
                _ => NameEntry::Failed(ReadFault::Malformed),
            }
        },
    }
}

/// What comes of a list of which `done` has been taken already, from `at` bytes,
/// given what comes of the rest.
pub open spec fn resumed<T>(done: Seq<T>, at: nat, rest: Piece<Seq<T>>) -> Piece<Seq<T>> {
    match rest {
        Piece::More => Piece::More,
        Piece::Failed(fault) => Piece::Failed(fault),
        Piece::Took { value, used } => Piece::Took { value: done + value, used: at + used },
    }
}

/// What comes of an acknowledgement that lists members, given what comes of
/// their names.
pub open spec fn ack_of(names: Piece<Seq<Seq<char>>>, replication: nat) -> Piece<
    Option<(Seq<Seq<char>>, nat)>,
> {
    match names {
        Piece::More => Piece::More,
        Piece::Failed(fault) => Piece::Failed(fault),
        Piece::Took { value, used } => Piece::Took { value: Some((value, replication)), used },
    }
}

proof fn lemma_line_taken(unread: Seq<u8>, ended: bool, used: int, rest: Seq<u8>, later: bool)
    requires
        line_read(unread, ended, MAX_ROSTER_LINE_LEN as nat) matches LineRead::Whole(end) && end
            < used <= unread.len(),
    ensures
        ({
            let line = line_read(unread, ended, MAX_ROSTER_LINE_LEN as nat);
            let all = unread.take(used) + rest;
            &&& line_read(all, later, MAX_ROSTER_LINE_LEN as nat) == line
            &&& all.take(line->0 as int) == unread.take(line->0 as int)
        }),
{
    let all = unread.take(used) + rest;
    lemma_position(unread, 10u8);
    let end = position(unread, 10u8) as int;
    assert(all[end] == unread[end]);
    assert forall|i: int| 0 <= i < end implies all[i] != 10 by {
        assert(all[i] == unread[i]);
    }
    lemma_is_position(all, 10u8, end);
    assert(all.take(end) =~= unread.take(end));
}

proof fn lemma_ack_header_taken(unread: Seq<u8>, ended: bool, rest: Seq<u8>, later: bool)
    requires
        ack_header(unread, ended) matches Piece::Took { value: Some(_), .. },
    ensures
        ({
            let header = ack_header(unread, ended);
            let (count, replication) = header->Took_value->0;
            &&& 0 < header->used <= unread.len()
            &&& ack_read(unread.take(header->used as int) + rest, later) == ack_of(
                resumed(Seq::empty(), header->used, ack_entries(rest, later, count)),
                replication,
            )
        }),
{
    lemma_position(unread, 10u8);
    let used = ack_header(unread, ended)->used as int;
    let (count, _) = ack_header(unread, ended)->Took_value->0;
    lemma_line_taken(unread, ended, used, rest, later);
    let all = unread.take(used) + rest;
    assert(all.skip(used) =~= rest);
    if let Piece::Took { value, used: _ } = ack_entries(rest, later, count) {
        assert(Seq::<Seq<char>>::empty() + value =~= value);
    }
}

proof fn lemma_ack_entry_taken(unread: Seq<u8>, ended: bool, rest: Seq<u8>, later: bool)
    requires
        ack_entry(unread, ended) is Took,
    ensures
        0 < ack_entry(unread, ended)->used <= unread.len(),
        ack_entry(unread.take(ack_entry(unread, ended)->used as int) + rest, later) == ack_entry(
            unread,
            ended,
        ),
{
    reveal(ack_entry);
    lemma_position(unread, 10u8);
    let used = ack_entry(unread, ended)->used as int;
    lemma_line_taken(unread, ended, used, rest, later);
    let all = unread.take(used) + rest;
    let end = line_read(unread, ended, MAX_ROSTER_LINE_LEN as nat)->0;
    let found = numbers(unread.take(end as int));
    let start = end + 1;
    assert(all[used - 1] == unread[used - 1]);
    assert(all.subrange(start, start + found[0]->0) =~= unread.subrange(
        start,
        start + found[0]->0,
    ));
}

proof fn lemma_ack_entry_short(unread: Seq<u8>, ended: bool)
    requires
        ack_entry(unread, ended) is More,
    ensures
        unread.len() <= MAX_ROSTER_LINE_LEN + 2 * MAX_ROSTER_FIELD_LEN,
{
    reveal(ack_entry);
    lemma_position(unread, 10u8);
}

/// Whether the first bytes of an acknowledgement are taken in: whatever comes after
/// them, it comes to the members that were taken, and what comes of the rest.
#[verifier::opaque]
spec fn ack_follows(
    taken: Seq<u8>,
    done: Seq<Seq<char>>,
    left: nat,
    replication: nat,
) -> bool {
    forall|rest: Seq<u8>, ended: bool| #[trigger]
        ack_read(taken + rest, ended) == ack_of(
            resumed(done, taken.len(), ack_entries(rest, ended, left)),
            replication,
        )
}

proof fn lemma_ack_follows(
    taken: Seq<u8>,
    done: Seq<Seq<char>>,
    left: nat,
    replication: nat,
    rest: Seq<u8>,
    ended: bool,
)
    requires
        ack_follows(taken, done, left, replication),
    ensures
        ack_read(taken + rest, ended) == ack_of(
            resumed(done, taken.len(), ack_entries(rest, ended, left)),
            replication,
        ),
{
    reveal(ack_follows);
}

proof fn lemma_ack_step(
    taken: Seq<u8>,
    done: Seq<Seq<char>>,
    left: nat,
    replication: nat,
    unread: Seq<u8>,
    ended: bool,
)
    requires
        ack_follows(taken, done, left, replication),
        left > 0,
        ack_entry(unread, ended) is Took,
    ensures
        0 < ack_entry(unread, ended)->used <= unread.len(),
        ack_follows(
            taken + unread.take(ack_entry(unread, ended)->used as int),
            done.push(ack_entry(unread, ended)->Took_value),
            (left - 1) as nat,
            replication,
        ),
{
    let used = ack_entry(unread, ended)->used as int;
    let last = ack_entry(unread, ended)->Took_value;
    let piece = unread.take(used);
    lemma_ack_entry_taken(unread, ended, Seq::empty(), ended);
    assert forall|rest: Seq<u8>, later: bool| #[trigger]
        ack_read((taken + piece) + rest, later) == ack_of(
            resumed(
                done.push(last),
                (taken + piece).len(),
                ack_entries(rest, later, (left - 1) as nat),
            ),
            replication,
        ) by {
        lemma_ack_entry_taken(unread, ended, rest, later);
        lemma_ack_follows(taken, done, left, replication, piece + rest, later);
        assert((taken + piece) + rest =~= taken + (piece + rest));
        assert((piece + rest).skip(used) =~= rest);
        if let Piece::Took { value, used: _ } = ack_entries(rest, later, (left - 1) as nat) {
            assert(done + (seq![last] + value) =~= done.push(last) + value);
        }
    }
    reveal(ack_follows);
}

/// Takes an acknowledgement in as it arrives, member by member; a member that
/// came in whole is read once.
pub struct AckReader {
    /// The replication factor, from the time the header is taken.
    replication: Option<usize>,
    names: Vec<String>,
    left: usize,
    taken: Ghost<Seq<u8>>,
}

impl AckReader {
    /// The bytes that were taken in.
    pub closed spec fn bytes(self) -> Seq<u8> {
        self.taken@
    }

    /// Whatever comes in after the bytes that were taken in, the acknowledgement
    /// comes to the members that were taken, and what comes of the rest.
    pub closed spec fn wf(self) -> bool {
        match self.replication {
            None => self.taken@.len() == 0 && self.names@.len() == 0,
            Some(replication) => ack_follows(
                self.taken@,
                text_views(self.names@),
                self.left as nat,
                replication as nat,
            ),
        }
    }

    /// A reader that has taken nothing in.
    pub fn new() -> (reader: AckReader)
        ensures
            reader.wf(),
            reader.bytes() == Seq::<u8>::empty(),
    {
        AckReader {
            replication: None,
            names: Vec::new(),
            left: 0,
            taken: Ghost(Seq::empty()),
        }
    }
}

/// Reads a heartbeat's acknowledgement from what has been received and not yet
/// taken in; `ended` says that no more will come. `A` alone brings no news. Once
/// it is decided, the reader begins anew; until then no whole member is left for
/// later.
pub fn read_heartbeat_ack(reader: &mut AckReader, unread: &[u8], ended: bool) -> (read: AckRead)
    requires
        old(reader).wf(),
    ensures
        final(reader).wf(),
        final(reader).bytes() == match read {
            AckRead::More { used } => old(reader).bytes() + unread@.take(used as int),
            _ => Seq::empty(),
        },
        match (ack_read(old(reader).bytes() + unread@, ended), read) {
            (Piece::More, AckRead::More { used }) => used <= unread@.len() <= used
                + MAX_ROSTER_LINE_LEN + 2 * MAX_ROSTER_FIELD_LEN,
            (Piece::Failed(fault), AckRead::Failed(error)) => fault.reported(
                error,
                "malformed heartbeat ack"@,
            ),
            (Piece::Took { value, used }, AckRead::Ready { roster, used: length }) => {
                &&& length <= unread@.len()
                &&& used == old(reader).bytes().len() + length
                &&& match (value, roster) {
                    (None, None) => true,
                    (Some((names, replication)), Some((found, factor))) => text_views(found@)
                        == names && replication == factor,
                    _ => false,
                }
            },
            _ => false,
        },
{
    let ghost start = reader.taken@;
    let ghost all = start + unread@;
    let mut at: usize = 0;
    assert(unread@.take(0) =~= Seq::empty());
    assert(start + unread@.take(0) =~= start);
    let replication: usize = match reader.replication {
        Some(replication) => replication,
        None => {
            assert(all =~= unread@);
            match read_ack_header(unread, ended) {
                Header::More => {
                    return AckRead::More { used: 0 };
                },
                Header::Failed(fault) => {
                    return AckRead::Failed(fault.report("malformed heartbeat ack"));
                },
                Header::Took { value: None, used } => {
                    return AckRead::Ready { roster: None, used };
                },
                Header::Took { value: Some((count, replication)), used } => {
                    reader.replication = Some(replication);
                    reader.left = count;
                    reader.taken = Ghost(unread@.take(used as int));
                    at = used;
                    assert(text_views(reader.names@) =~= Seq::empty());
                    assert(start + unread@.take(at as int) =~= reader.taken@);
                    proof {
                        assert forall|rest: Seq<u8>, later: bool| #[trigger]
                            ack_read(unread@.take(used as int) + rest, later) == ack_of(
                                resumed(
                                    Seq::empty(),
                                    unread@.take(used as int).len(),
                                    ack_entries(rest, later, count as nat),
                                ),
                                replication as nat,
                            ) by {
                            lemma_ack_header_taken(unread@, ended, rest, later);
                        }
                        reveal(ack_follows);
                    }
                    replication
                },
            }
        },
    };
    while reader.left > 0
        invariant
            reader.wf(),
            reader.replication == Some(replication),
            at <= unread.len(),
            all == start + unread@,
            reader.taken@ == start + unread@.take(at as int),
            start == old(reader).bytes(),
        decreases reader.left,
    {
        let rest = slice_subrange(unread, at, unread.len());
        assert(reader.taken@ + rest@ =~= all);
        let ghost before = *reader;
        proof {
            lemma_ack_follows(
                reader.taken@,
                text_views(reader.names@),
                reader.left as nat,
                replication as nat,
                rest@,
                ended,
            );
        }
        match read_ack_entry(rest, ended) {
            NameEntry::More => {
                proof {
                    lemma_ack_entry_short(rest@, ended);
                }
                return AckRead::More { used: at };
            },
            NameEntry::Failed(fault) => {
                *reader = AckReader::new();
                return AckRead::Failed(fault.report("malformed heartbeat ack"));
            },
            NameEntry::Took { name, used } => {
                let ghost last = name@;
                proof {
                    lemma_ack_step(
                        reader.taken@,
                        text_views(reader.names@),
                        reader.left as nat,
                        replication as nat,
                        rest@,
                        ended,
                    );
                }
                reader.names.push(name);
                reader.left = reader.left - 1;
                reader.taken = Ghost(before.taken@ + rest@.take(used as int));
                assert(text_views(reader.names@) =~= text_views(before.names@).push(last));
                assert(reader.taken@ =~= start + unread@.take(at + used));
                at = at + used;
            },
        }
    }
    proof {
        let rest = unread@.skip(at as int);
        lemma_ack_follows(
            reader.taken@,
            text_views(reader.names@),
            0,
            replication as nat,
            rest,
            ended,
        );
        assert(reader.taken@ + rest =~= all);
        assert(text_views(reader.names@) + Seq::<Seq<char>>::empty() =~= text_views(reader.names@));
        assert(ack_entries(rest, ended, 0) == (Piece::<Seq<Seq<char>>>::Took {
            value: Seq::empty(),
            used: 0,
        }));
    }
    let mut names: Vec<String> = Vec::new();
    std::mem::swap(&mut names, &mut reader.names);
    *reader = AckReader::new();
    AckRead::Ready { roster: Some((names, replication)), used: at }
}

/// The header of a roster: `B` if the server does not know its members yet, or
/// `N` with the number of members and the replication factor.
pub open spec fn roster_header(unread: Seq<u8>, ended: bool) -> Piece<(nat, nat)> {
    match line_read(unread, ended, MAX_ROSTER_LINE_LEN as nat) {
        LineRead::Whole(end) => {
            let line = unread.take(end as int);
            let found = numbers(line.skip(2));
            if line == seq![66u8] {
                Piece::Failed(ReadFault::Grace)
            } else if line.len() >= 2 && line[0] == 78 && line[1] == 32 && found.len() >= 2
                && found[0] is Some && found[0]->0 <= MAX_ADDRESSED_ENTRIES && found[1] is Some
                && found[1]->0 >= 1 {
                Piece::Took { value: (found[0]->0, found[1]->0), used: (end + 1) as nat }
            } else {
                Piece::Failed(ReadFault::Malformed)
            }
        },
        line => unread_line(line),
    }
}

/// One member of a roster: the lengths of its name, its address and its token
/// on a line, then the three, then one more byte.
#[verifier::opaque]
pub open spec fn roster_entry(unread: Seq<u8>, ended: bool) -> Piece<RosterEntryView> {
    match line_read(unread, ended, MAX_ROSTER_LINE_LEN as nat) {
        LineRead::Whole(end) => {
            let found = numbers(unread.take(end as int));
            if found.len() >= 3 && found[0] is Some && found[0]->0 <= MAX_NAME_ADDR_OR_TOKEN_LENGTH
                && found[1] is Some && found[1]->0 <= MAX_NAME_ADDR_OR_TOKEN_LENGTH
                && found[2] is Some && found[2]->0 <= MAX_NAME_ADDR_OR_TOKEN_LENGTH {
                let start = end + 1;
                let addr = start + found[0]->0;
                let token = addr + found[1]->0;
                let stop = token + found[2]->0;
                if unread.len() < stop + 1 {
                    short(ended)
                } else {
                    Piece::Took {
                        value: RosterEntryView {
                            name: received_text(unread.subrange(start, addr)),
                            addr: received_text(unread.subrange(addr, token)),
                            token: received_text(unread.subrange(token, stop)),
                        },
                        used: (stop + 1) as nat,
                    }
                }
            } else {
                Piece::Failed(ReadFault::Malformed)
            }
        },
        line => unread_line(line),
    }
}

/// The next `left` members.
pub open spec fn roster_entries(unread: Seq<u8>, ended: bool, left: nat) -> Piece<
    Seq<RosterEntryView>,
>
    decreases left,
{
    if left == 0 {
        Piece::Took { value: Seq::empty(), used: 0 }
    } else {
        match roster_entry(unread, ended) {
            Piece::More => Piece::More,
            Piece::Failed(fault) => Piece::Failed(fault),
            Piece::Took { value: member, used } => match roster_entries(
                unread.skip(used as int),
                ended,
                (left - 1) as nat,
            ) {
                Piece::More => Piece::More,
                Piece::Failed(fault) => Piece::Failed(fault),
                Piece::Took { value: members, used: rest } => Piece::Took {
                    value: seq![member] + members,
                    used: used + rest,
                },
            },
        }
    }
}

/// A whole roster: its members and the replication factor.
pub open spec fn roster_read(unread: Seq<u8>, ended: bool) -> Piece<(Seq<RosterEntryView>, nat)> {
    match roster_header(unread, ended) {
        Piece::More => Piece::More,
        Piece::Failed(fault) => Piece::Failed(fault),
        Piece::Took { value: (count, replication), used } => match roster_entries(
            unread.skip(used as int),
            ended,
            count,
        ) {
            Piece::More => Piece::More,
            Piece::Failed(fault) => Piece::Failed(fault),
            Piece::Took { value: members, used: rest } => Piece::Took {
                value: (members, replication),
                used: used + rest,
            },
        },
    }
}

/// What has been received of a roster.
#[derive(Debug, PartialEq, Eq)]
pub enum RosterRead {
    /// Not all of it; the first `used` bytes are taken in.
    More { used: usize },
    Failed(ConnectionError),
    Ready { members: Vec<RosterEntry>, replication: usize },
}

enum RosterHeader {
    More,
    Failed(ReadFault),
    Took { count: usize, replication: usize, used: usize },
}

fn read_roster_header(unread: &[u8], ended: bool) -> (header: RosterHeader)
    ensures
        match (roster_header(unread@, ended), header) {
            (Piece::More, RosterHeader::More) => true,
            (Piece::Failed(fault), RosterHeader::Failed(found)) => fault == found,
            (
                Piece::Took { value, used },
                RosterHeader::Took { count, replication, used: length },
            ) => {
                &&& used == length <= unread@.len()
                &&& value == (count as nat, replication as nat)
            },
            _ => false,
        },
{
    proof {
        lemma_position(unread@, 10u8);
    }
    match read_line_capped(unread, ended, MAX_ROSTER_LINE_LEN) {
        LineRead::More => RosterHeader::More,
        LineRead::TooLong => RosterHeader::Failed(ReadFault::TooLong),
        LineRead::Cut => RosterHeader::Failed(ReadFault::Malformed),
        LineRead::Whole(end) => {
            let line = slice_subrange(unread, 0, end);
            assert(line@ =~= unread@.take(end as int));
            if line.len() == 1 && line[0] == 66 {
                assert(line@ =~= seq![66u8]);
                return RosterHeader::Failed(ReadFault::Grace);
            }
            if line.len() < 2 || line[0] != 78 || line[1] != 32 {
                return RosterHeader::Failed(ReadFault::Malformed);
            }
            let rest = slice_subrange(line, 2, line.len());
            assert(rest@ =~= line@.skip(2));
            let found = read_numbers(rest);
            assert(number_views(found@).len() == found@.len());
            if found.len() < 2 {
                return RosterHeader::Failed(ReadFault::Malformed);
            }
            assert(number_views(found@)[0] == numbers(rest@)[0]);
            assert(number_views(found@)[1] == numbers(rest@)[1]);
            match (found[0], found[1]) {
                (Some(count), Some(replication)) => {
                    if count > MAX_ADDRESSED_ENTRIES || replication == 0 {
                        return RosterHeader::Failed(ReadFault::Malformed);
                    }
                    RosterHeader::Took { count, replication, used: end + 1 }
                },
                _ => RosterHeader::Failed(ReadFault::Malformed),
            }
        },
    }
}

enum MemberEntry {
    More,
    Failed(ReadFault),
    Took { member: RosterEntry, used: usize },
}

fn read_roster_entry(unread: &[u8], ended: bool) -> (entry: MemberEntry)
    ensures
        match (roster_entry(unread@, ended), entry) {
            (Piece::More, MemberEntry::More) => true,
            (Piece::Failed(fault), MemberEntry::Failed(found)) => fault == found,
            (Piece::Took { value, used }, MemberEntry::Took { member, used: length }) => {
                &&& used == length <= unread@.len()
                &&& value == member@
            },
            _ => false,
        },
{
    proof {
        reveal(roster_entry);
        lemma_position(unread@, 10u8);
    }
    match read_line_capped(unread, ended, MAX_ROSTER_LINE_LEN) {
        LineRead::More => MemberEntry::More,
        LineRead::TooLong => MemberEntry::Failed(ReadFault::TooLong),
        LineRead::Cut => MemberEntry::Failed(ReadFault::Malformed),
        LineRead::Whole(end) => {
            let line = slice_subrange(unread, 0, end);
            assert(line@ =~= unread@.take(end as int));
            let found = read_numbers(line);
            assert(number_views(found@).len() == found@.len());
            if found.len() < 3 {
                return MemberEntry::Failed(ReadFault::Malformed);
            }
            assert(number_views(found@)[0] == numbers(line@)[0]);
            assert(number_views(found@)[1] == numbers(line@)[1]);
            assert(number_views(found@)[2] == numbers(line@)[2]);
            match (found[0], found[1], found[2]) {
                (Some(name_length), Some(addr_length), Some(token_length)) => {
                    if name_length > MAX_NAME_ADDR_OR_TOKEN_LENGTH || addr_length
                        > MAX_NAME_ADDR_OR_TOKEN_LENGTH || token_length
                        > MAX_NAME_ADDR_OR_TOKEN_LENGTH {
                        return MemberEntry::Failed(ReadFault::Malformed);
                    }
                    let start: usize = end + 1;
                    let body: usize = name_length + addr_length + token_length;
                    if unread.len() - start < body + 1 {
                        if ended {
                            return MemberEntry::Failed(ReadFault::Cut);
                        }
                        return MemberEntry::More;
                    }
                    let addr: usize = start + name_length;
                    let token: usize = addr + addr_length;
                    let stop: usize = token + token_length;
                    let member = RosterEntry {
                        name: text_from_utf8_lossy(slice_subrange(unread, start, addr)),
                        addr: text_from_utf8_lossy(slice_subrange(unread, addr, token)),
                        token: text_from_utf8_lossy(slice_subrange(unread, token, stop)),
                    };
                    MemberEntry::Took { member, used: stop + 1 }
                },
                _ => MemberEntry::Failed(ReadFault::Malformed),
            }
        },
    }
}

/// What comes of a roster, given what comes of its members.
pub open spec fn roster_of(members: Piece<Seq<RosterEntryView>>, replication: nat) -> Piece<
    (Seq<RosterEntryView>, nat),
> {
    match members {
        Piece::More => Piece::More,
        Piece::Failed(fault) => Piece::Failed(fault),
        Piece::Took { value, used } => Piece::Took { value: (value, replication), used },
    }
}

proof fn lemma_roster_header_taken(unread: Seq<u8>, ended: bool, rest: Seq<u8>, later: bool)
    requires
        roster_header(unread, ended) is Took,
    ensures
        ({
            let header = roster_header(unread, ended);
            let (count, replication) = header->Took_value;
            &&& 0 < header->used <= unread.len()
            &&& roster_read(unread.take(header->used as int) + rest, later) == roster_of(
                resumed(Seq::empty(), header->used, roster_entries(rest, later, count)),
                replication,
            )
        }),
{
    lemma_position(unread, 10u8);
    let used = roster_header(unread, ended)->used as int;
    let (count, _) = roster_header(unread, ended)->Took_value;
    lemma_line_taken(unread, ended, used, rest, later);
    let all = unread.take(used) + rest;
    assert(all.skip(used) =~= rest);
    if let Piece::Took { value, used: _ } = roster_entries(rest, later, count) {
        assert(Seq::<RosterEntryView>::empty() + value =~= value);
    }
}

proof fn lemma_roster_entry_taken(unread: Seq<u8>, ended: bool, rest: Seq<u8>, later: bool)
    requires
        roster_entry(unread, ended) is Took,
    ensures
        0 < roster_entry(unread, ended)->used <= unread.len(),
        roster_entry(unread.take(roster_entry(unread, ended)->used as int) + rest, later)
            == roster_entry(unread, ended),
{
    reveal(roster_entry);
    lemma_position(unread, 10u8);
    let used = roster_entry(unread, ended)->used as int;
    lemma_line_taken(unread, ended, used, rest, later);
    let all = unread.take(used) + rest;
    let end = line_read(unread, ended, MAX_ROSTER_LINE_LEN as nat)->0;
    let found = numbers(unread.take(end as int));
    let start = end + 1;
    let addr = start + found[0]->0;
    let token = addr + found[1]->0;
    let stop = token + found[2]->0;
    assert(all.subrange(start, addr) =~= unread.subrange(start, addr));
    assert(all.subrange(addr, token) =~= unread.subrange(addr, token));
    assert(all.subrange(token, stop) =~= unread.subrange(token, stop));
}

proof fn lemma_roster_entry_short(unread: Seq<u8>, ended: bool)
    requires
        roster_entry(unread, ended) is More,
    ensures
        unread.len() <= MAX_ROSTER_LINE_LEN + 3 * MAX_NAME_ADDR_OR_TOKEN_LENGTH,
{
    reveal(roster_entry);
    lemma_position(unread, 10u8);
}

/// Whether the first bytes of a roster are taken in: whatever comes after
/// them, it comes to the members that were taken, and what comes of the rest.
#[verifier::opaque]
spec fn roster_follows(
    taken: Seq<u8>,
    done: Seq<RosterEntryView>,
    left: nat,
    replication: nat,
) -> bool {
    forall|rest: Seq<u8>, ended: bool| #[trigger]
        roster_read(taken + rest, ended) == roster_of(
            resumed(done, taken.len(), roster_entries(rest, ended, left)),
            replication,
        )
}

proof fn lemma_roster_follows(
    taken: Seq<u8>,
    done: Seq<RosterEntryView>,
    left: nat,
    replication: nat,
    rest: Seq<u8>,
    ended: bool,
)
    requires
        roster_follows(taken, done, left, replication),
    ensures
        roster_read(taken + rest, ended) == roster_of(
            resumed(done, taken.len(), roster_entries(rest, ended, left)),
            replication,
        ),
{
    reveal(roster_follows);
}

proof fn lemma_roster_step(
    taken: Seq<u8>,
    done: Seq<RosterEntryView>,
    left: nat,
    replication: nat,
    unread: Seq<u8>,
    ended: bool,
)
    requires
        roster_follows(taken, done, left, replication),
        left > 0,
        roster_entry(unread, ended) is Took,
    ensures
        0 < roster_entry(unread, ended)->used <= unread.len(),
        roster_follows(
            taken + unread.take(roster_entry(unread, ended)->used as int),
            done.push(roster_entry(unread, ended)->Took_value),
            (left - 1) as nat,
            replication,
        ),
{
    let used = roster_entry(unread, ended)->used as int;
    let last = roster_entry(unread, ended)->Took_value;
    let piece = unread.take(used);
    lemma_roster_entry_taken(unread, ended, Seq::empty(), ended);
    assert forall|rest: Seq<u8>, later: bool| #[trigger]
        roster_read((taken + piece) + rest, later) == roster_of(
            resumed(
                done.push(last),
                (taken + piece).len(),
                roster_entries(rest, later, (left - 1) as nat),
            ),
            replication,
        ) by {
        lemma_roster_entry_taken(unread, ended, rest, later);
        lemma_roster_follows(taken, done, left, replication, piece + rest, later);
        assert((taken + piece) + rest =~= taken + (piece + rest));
        assert((piece + rest).skip(used) =~= rest);
        if let Piece::Took { value, used: _ } = roster_entries(rest, later, (left - 1) as nat) {
            assert(done + (seq![last] + value) =~= done.push(last) + value);
        }
    }
    reveal(roster_follows);
}

/// Takes a roster in as it arrives, member by member; a member that came in whole
/// is read once.
pub struct RosterReader {
    /// The replication factor, from the time the header is taken.
    replication: Option<usize>,
    members: Vec<RosterEntry>,
    left: usize,
    taken: Ghost<Seq<u8>>,
}

impl RosterReader {
    /// The bytes that were taken in.
    pub closed spec fn bytes(self) -> Seq<u8> {
        self.taken@
    }

    /// Whatever comes in after the bytes that were taken in, the roster comes to
    /// the members that were taken, and what comes of the rest.
    pub closed spec fn wf(self) -> bool {
        match self.replication {
            None => self.taken@.len() == 0 && self.members@.len() == 0,
            Some(replication) => roster_follows(
                self.taken@,
                entry_views(self.members@),
                self.left as nat,
                replication as nat,
            ),
        }
    }

    /// A reader that has taken nothing in.
    pub fn new() -> (reader: RosterReader)
        ensures
            reader.wf(),
            reader.bytes() == Seq::<u8>::empty(),
    {
        RosterReader {
            replication: None,
            members: Vec::new(),
            left: 0,
            taken: Ghost(Seq::empty()),
        }
    }
}

/// Reads a roster with addresses and tokens from what has been received and not
/// yet taken in; `ended` says that no more will come. Once it is decided, the
/// reader begins anew; until then no whole member is left for later.
pub fn read_roster(reader: &mut RosterReader, unread: &[u8], ended: bool) -> (read: RosterRead)
    requires
        old(reader).wf(),
    ensures
        final(reader).wf(),
        final(reader).bytes() == match read {
            RosterRead::More { used } => old(reader).bytes() + unread@.take(used as int),
            _ => Seq::empty(),
        },
        match (roster_read(old(reader).bytes() + unread@, ended), read) {
            (Piece::More, RosterRead::More { used }) => used <= unread@.len() <= used
                + MAX_ROSTER_LINE_LEN + 3 * MAX_NAME_ADDR_OR_TOKEN_LENGTH,
            (Piece::Failed(fault), RosterRead::Failed(error)) => fault.reported(
                error,
                "bad T response"@,
            ),
            (Piece::Took { value, .. }, RosterRead::Ready { members, replication }) => value == (
                entry_views(members@),
                replication as nat,
            ),
            _ => false,
        },
{
    let ghost start = reader.taken@;
    let ghost all = start + unread@;
    let mut at: usize = 0;
    assert(unread@.take(0) =~= Seq::empty());
    assert(start + unread@.take(0) =~= start);
    let replication: usize = match reader.replication {
        Some(replication) => replication,
        None => {
            assert(all =~= unread@);
            match read_roster_header(unread, ended) {
                RosterHeader::More => {
                    return RosterRead::More { used: 0 };
                },
                RosterHeader::Failed(fault) => {
                    return RosterRead::Failed(fault.report("bad T response"));
                },
                RosterHeader::Took { count, replication, used } => {
                    reader.replication = Some(replication);
                    reader.left = count;
                    reader.taken = Ghost(unread@.take(used as int));
                    at = used;
                    assert(entry_views(reader.members@) =~= Seq::empty());
                    assert(start + unread@.take(at as int) =~= reader.taken@);
                    proof {
                        assert forall|rest: Seq<u8>, later: bool| #[trigger]
                            roster_read(unread@.take(used as int) + rest, later) == roster_of(
                                resumed(
                                    Seq::empty(),
                                    unread@.take(used as int).len(),
                                    roster_entries(rest, later, count as nat),
                                ),
                                replication as nat,
                            ) by {
                            lemma_roster_header_taken(unread@, ended, rest, later);
                        }
                        reveal(roster_follows);
                    }
                    replication
                },
            }
        },
    };
    while reader.left > 0
        invariant
            reader.wf(),
            reader.replication == Some(replication),
            at <= unread.len(),
            all == start + unread@,
            reader.taken@ == start + unread@.take(at as int),
            start == old(reader).bytes(),
        decreases reader.left,
    {
        let rest = slice_subrange(unread, at, unread.len());
        assert(reader.taken@ + rest@ =~= all);
        let ghost before = *reader;
        proof {
            lemma_roster_follows(
                reader.taken@,
                entry_views(reader.members@),
                reader.left as nat,
                replication as nat,
                rest@,
                ended,
            );
        }
        match read_roster_entry(rest, ended) {
            MemberEntry::More => {
                proof {
                    lemma_roster_entry_short(rest@, ended);
                }
                return RosterRead::More { used: at };
            },
            MemberEntry::Failed(fault) => {
                *reader = RosterReader::new();
                return RosterRead::Failed(fault.report("bad T response"));
            },
            MemberEntry::Took { member, used } => {
                let ghost last = member@;
                proof {
                    lemma_roster_step(
                        reader.taken@,
                        entry_views(reader.members@),
                        reader.left as nat,
                        replication as nat,
                        rest@,
                        ended,
                    );
                }
                reader.members.push(member);
                reader.left = reader.left - 1;
                reader.taken = Ghost(before.taken@ + rest@.take(used as int));
                assert(entry_views(reader.members@) =~= entry_views(before.members@).push(last));
                assert(reader.taken@ =~= start + unread@.take(at + used));
                at = at + used;
            },
        }
    }
    proof {
        let rest = unread@.skip(at as int);
        lemma_roster_follows(
            reader.taken@,
            entry_views(reader.members@),
            0,
            replication as nat,
            rest,
            ended,
        );
        assert(reader.taken@ + rest =~= all);
        assert(entry_views(reader.members@) + Seq::<RosterEntryView>::empty() =~= entry_views(
            reader.members@,
        ));
        assert(roster_entries(rest, ended, 0) == (Piece::<Seq<RosterEntryView>>::Took {
            value: Seq::empty(),
            used: 0,
        }));
    }
    let mut members: Vec<RosterEntry> = Vec::new();
    std::mem::swap(&mut members, &mut reader.members);
    *reader = RosterReader::new();
    RosterRead::Ready { members, replication }
}

proof fn lemma_ack_entry_decided(unread: Seq<u8>, more: Seq<u8>, ended: bool)
    requires
        !(ack_entry(unread, false) is More),
    ensures
        ack_entry(unread + more, ended) == ack_entry(unread, false),
        ack_entry(unread, false) is Took ==> ack_entry(unread, false)->used <= unread.len(),
{
    reveal(ack_entry);
    let all = unread + more;
    law_line_is_decided_by_its_bytes(unread, more, ended, MAX_ROSTER_LINE_LEN as nat);
    lemma_position(unread, 10u8);
    if let LineRead::Whole(end) = line_read(unread, false, MAX_ROSTER_LINE_LEN as nat) {
        assert(all.take(end as int) =~= unread.take(end as int));
        let found = numbers(unread.take(end as int));
        if found.len() == 2 && found[0] is Some && found[1] is Some {
            let start = end + 1;
            let stop = start + found[0]->0 + found[1]->0;
            if stop < unread.len() {
                assert(all[stop] == unread[stop]);
                assert(all.subrange(start, start + found[0]->0) =~= unread.subrange(
                    start,
                    start + found[0]->0,
                ));
            }
        }
    }
}

proof fn lemma_ack_entries_decided(unread: Seq<u8>, more: Seq<u8>, ended: bool, left: nat)
    requires
        !(ack_entries(unread, false, left) is More),
    ensures
        ack_entries(unread + more, ended, left) == ack_entries(unread, false, left),
    decreases left,
{
    if left > 0 {
        lemma_ack_entry_decided(unread, more, ended);
        if let Piece::Took { value: _, used } = ack_entry(unread, false) {
            assert((unread + more).skip(used as int) =~= unread.skip(used as int) + more);
            lemma_ack_entries_decided(unread.skip(used as int), more, ended, (left - 1) as nat);
        }
    }
}

/// An acknowledgement reads the same however the stream is cut into pieces:
/// once it is decided, what comes in later does not change it.
pub proof fn law_ack_is_decided_by_its_bytes(unread: Seq<u8>, more: Seq<u8>, ended: bool)
    requires
        !(ack_read(unread, false) is More),
    ensures
        ack_read(unread + more, ended) == ack_read(unread, false),
{
    let all = unread + more;
    law_line_is_decided_by_its_bytes(unread, more, ended, MAX_ROSTER_LINE_LEN as nat);
    lemma_position(unread, 10u8);
    if let LineRead::Whole(end) = line_read(unread, false, MAX_ROSTER_LINE_LEN as nat) {
        assert(all.take(end as int) =~= unread.take(end as int));
    }
    if let Piece::Took { value: Some((count, _)), used } = ack_header(unread, false) {
        assert(all.skip(used as int) =~= unread.skip(used as int) + more);
        lemma_ack_entries_decided(unread.skip(used as int), more, ended, count);
    }
}

proof fn lemma_roster_entry_decided(unread: Seq<u8>, more: Seq<u8>, ended: bool)
    requires
        !(roster_entry(unread, false) is More),
    ensures
        roster_entry(unread + more, ended) == roster_entry(unread, false),
        roster_entry(unread, false) is Took ==> roster_entry(unread, false)->used <= unread.len(),
{
    reveal(roster_entry);
    let all = unread + more;
    law_line_is_decided_by_its_bytes(unread, more, ended, MAX_ROSTER_LINE_LEN as nat);
    lemma_position(unread, 10u8);
    if let LineRead::Whole(end) = line_read(unread, false, MAX_ROSTER_LINE_LEN as nat) {
        assert(all.take(end as int) =~= unread.take(end as int));
        let found = numbers(unread.take(end as int));
        if found.len() >= 3 && found[0] is Some && found[1] is Some && found[2] is Some {
            let start = end + 1;
            let addr = start + found[0]->0;
            let token = addr + found[1]->0;
            let stop = token + found[2]->0;
            if stop < unread.len() {
                assert(all.subrange(start, addr) =~= unread.subrange(start, addr));
                assert(all.subrange(addr, token) =~= unread.subrange(addr, token));
                assert(all.subrange(token, stop) =~= unread.subrange(token, stop));
            }
        }
    }
}

proof fn lemma_roster_entries_decided(unread: Seq<u8>, more: Seq<u8>, ended: bool, left: nat)
    requires
        !(roster_entries(unread, false, left) is More),
    ensures
        roster_entries(unread + more, ended, left) == roster_entries(unread, false, left),
    decreases left,
{
    if left > 0 {
        lemma_roster_entry_decided(unread, more, ended);
        if let Piece::Took { value: _, used } = roster_entry(unread, false) {
            assert((unread + more).skip(used as int) =~= unread.skip(used as int) + more);
            lemma_roster_entries_decided(unread.skip(used as int), more, ended, (left - 1) as nat);
        }
    }
}

/// A roster reads the same however the stream is cut into pieces.
pub proof fn law_roster_is_decided_by_its_bytes(unread: Seq<u8>, more: Seq<u8>, ended: bool)
    requires
        !(roster_read(unread, false) is More),
    ensures
        roster_read(unread + more, ended) == roster_read(unread, false),
{
    let all = unread + more;
    law_line_is_decided_by_its_bytes(unread, more, ended, MAX_ROSTER_LINE_LEN as nat);
    lemma_position(unread, 10u8);
    if let LineRead::Whole(end) = line_read(unread, false, MAX_ROSTER_LINE_LEN as nat) {
        assert(all.take(end as int) =~= unread.take(end as int));
    }
    if let Piece::Took { value: (count, _), used } = roster_header(unread, false) {
        assert(all.skip(used as int) =~= unread.skip(used as int) + more);
        lemma_roster_entries_decided(unread.skip(used as int), more, ended, count);
    }
}

/// How a member is written in an acknowledgement.
pub open spec fn ack_entry_frame(name: Seq<char>, addr: Seq<u8>) -> Seq<u8> {
    let bytes = text_bytes(name);
    (decimal(bytes.len()).push(32) + decimal(addr.len())).push(10) + (bytes + addr).push(10)
}

/// How members are written in an acknowledgement.
pub open spec fn ack_entry_frames(members: Seq<(Seq<char>, Seq<u8>)>) -> Seq<u8>
    decreases members.len(),
{
    if members.len() == 0 {
        Seq::empty()
    } else {
        ack_entry_frame(members[0].0, members[0].1) + ack_entry_frames(members.drop_first())
    }
}

/// How an acknowledgement that lists members is written.
pub open spec fn ack_frame(members: Seq<(Seq<char>, Seq<u8>)>, replication: nat) -> Seq<u8> {
    (seq![65u8, 32u8] + (decimal(members.len()).push(32) + decimal(replication))).push(10)
        + ack_entry_frames(members)
}

/// How a member is written in a roster with addresses and tokens.
pub open spec fn roster_entry_frame(member: RosterEntryView) -> Seq<u8> {
    let name = text_bytes(member.name);
    let addr = text_bytes(member.addr);
    let token = text_bytes(member.token);
    (decimal(name.len()).push(32) + (decimal(addr.len()).push(32) + decimal(token.len()))).push(10)
        + (name + addr + token).push(10)
}

/// How members are written in a roster with addresses and tokens.
pub open spec fn roster_entry_frames(members: Seq<RosterEntryView>) -> Seq<u8>
    decreases members.len(),
{
    if members.len() == 0 {
        Seq::empty()
    } else {
        roster_entry_frame(members[0]) + roster_entry_frames(members.drop_first())
    }
}

/// How a roster with addresses and tokens is written.
pub open spec fn roster_frame(members: Seq<RosterEntryView>, replication: nat) -> Seq<u8> {
    (seq![78u8, 32u8] + (decimal(members.len()).push(32) + decimal(replication))).push(10)
        + roster_entry_frames(members)
}

proof fn lemma_decimal_len(n: nat, digits: nat)
    requires
        digits >= 1,
        n < ten_to(digits),
    ensures
        0 < decimal(n).len() <= digits,
        forall|i: int| 0 <= i < decimal(n).len() ==> is_digit(#[trigger] decimal(n)[i]),
    decreases digits,
{
    lemma_decimal_round_trip(n);
    if digits == 1 {
        assert(ten_to(1) == 10) by {
            reveal_with_fuel(ten_to, 2);
        }
    } else if n >= 10 {
        lemma_decimal_len(n / 10, (digits - 1) as nat);
    }
}

spec fn ten_to(digits: nat) -> nat
    decreases digits,
{
    if digits == 0 {
        1
    } else {
        10 * ten_to((digits - 1) as nat)
    }
}

proof fn lemma_number_is_short(n: nat)
    requires
        n <= usize::MAX,
    ensures
        0 < decimal(n).len() <= 20,
        forall|i: int| 0 <= i < decimal(n).len() ==> is_digit(#[trigger] decimal(n)[i]),
{
    assert(ten_to(20) == 100_000_000_000_000_000_000) by {
        reveal_with_fuel(ten_to, 21);
    }
    lemma_decimal_len(n, 20);
}

proof fn lemma_line(line: Seq<u8>, rest: Seq<u8>, ended: bool)
    requires
        forall|i: int| 0 <= i < line.len() ==> line[i] != 10,
        line.len() < MAX_ROSTER_LINE_LEN,
    ensures
        line_read(line.push(10) + rest, ended, MAX_ROSTER_LINE_LEN as nat) == LineRead::Whole(
            line.len() as usize,
        ),
        (line.push(10) + rest).take(line.len() as int) == line,
        (line.push(10) + rest).skip(line.len() as int + 1) == rest,
{
    let all = line.push(10) + rest;
    assert(all[line.len() as int] == 10);
    assert forall|i: int| 0 <= i < line.len() implies all[i] != 10 by {
        assert(all[i] == line[i]);
    }
    lemma_is_position(all, 10u8, line.len() as int);
    assert(all.take(line.len() as int) =~= line);
    assert(all.skip(line.len() as int + 1) =~= rest);
}

proof fn lemma_ack_entry_reads_back(name: Seq<char>, addr: Seq<u8>, rest: Seq<u8>, ended: bool)
    requires
        text_bytes(name).len() <= MAX_ROSTER_FIELD_LEN,
        addr.len() <= MAX_ROSTER_FIELD_LEN,
    ensures
        ack_entry(ack_entry_frame(name, addr) + rest, ended) == (Piece::Took {
            value: name,
            used: ack_entry_frame(name, addr).len(),
        }),
{
    reveal(ack_entry);
    let bytes = text_bytes(name);
    let line = decimal(bytes.len()).push(32) + decimal(addr.len());
    let body = (bytes + addr).push(10) + rest;
    let all = ack_entry_frame(name, addr) + rest;
    lemma_number_is_short(bytes.len());
    lemma_number_is_short(addr.len());
    assert(all =~= line.push(10) + body);
    lemma_line(line, body, ended);
    lemma_numbers_split(bytes.len(), decimal(addr.len()));
    lemma_numbers_split(addr.len(), Seq::empty());
    assert(numbers(line) =~= seq![Some(bytes.len()), Some(addr.len())]);
    let start = line.len() as int + 1;
    let stop = start + bytes.len() + addr.len();
    assert(all.len() >= stop + 1);
    assert(all[stop] == body[stop - start]);
    assert(all.subrange(start, start + bytes.len()) =~= bytes);
    encode_utf8_valid_utf8(name);
    encode_utf8_decode_utf8(name);
}

proof fn lemma_ack_entries_read_back(
    members: Seq<(Seq<char>, Seq<u8>)>,
    rest: Seq<u8>,
    ended: bool,
)
    requires
        forall|i: int|
            0 <= i < members.len() ==> text_bytes((#[trigger] members[i]).0).len()
                <= MAX_ROSTER_FIELD_LEN && members[i].1.len() <= MAX_ROSTER_FIELD_LEN,
    ensures
        ack_entries(ack_entry_frames(members) + rest, ended, members.len()) == (Piece::Took {
            value: member_names(members),
            used: ack_entry_frames(members).len(),
        }),
    decreases members.len(),
{
    if members.len() == 0 {
        assert(member_names(members) =~= Seq::empty());
    } else {
        let others = members.drop_first();
        let first = ack_entry_frame(members[0].0, members[0].1);
        let tail = ack_entry_frames(others) + rest;
        let all = ack_entry_frames(members) + rest;
        lemma_ack_entry_reads_back(members[0].0, members[0].1, tail, ended);
        assert forall|i: int| 0 <= i < others.len() implies text_bytes(
            (#[trigger] others[i]).0,
        ).len() <= MAX_ROSTER_FIELD_LEN && others[i].1.len() <= MAX_ROSTER_FIELD_LEN by {
            assert(others[i] == members[i + 1]);
        }
        lemma_ack_entries_read_back(others, rest, ended);
        assert(all =~= first + tail);
        assert(all.skip(first.len() as int) =~= tail);
        assert(seq![members[0].0] + member_names(others) =~= member_names(members));
    }
}

/// The names of members that are listed with their addresses.
pub open spec fn member_names(members: Seq<(Seq<char>, Seq<u8>)>) -> Seq<Seq<char>> {
    members.map_values(|member: (Seq<char>, Seq<u8>)| member.0)
}

/// The roster in an acknowledgement is the one that was written into it, and no
/// byte of what follows is taken.
pub proof fn law_ack_reads_back(
    members: Seq<(Seq<char>, Seq<u8>)>,
    replication: nat,
    rest: Seq<u8>,
    ended: bool,
)
    requires
        members.len() <= MAX_ROSTER_ENTRIES,
        1 <= replication <= usize::MAX,
        forall|i: int|
            0 <= i < members.len() ==> text_bytes((#[trigger] members[i]).0).len()
                <= MAX_ROSTER_FIELD_LEN && members[i].1.len() <= MAX_ROSTER_FIELD_LEN,
    ensures
        ack_read(ack_frame(members, replication) + rest, ended) == (Piece::Took {
            value: Some((member_names(members), replication)),
            used: ack_frame(members, replication).len(),
        }),
        ack_read(seq![65u8, 10u8] + rest, ended) == (Piece::Took {
            value: None::<(Seq<Seq<char>>, nat)>,
            used: 2,
        }),
{
    let line = seq![65u8, 32u8] + (decimal(members.len()).push(32) + decimal(replication));
    let body = ack_entry_frames(members) + rest;
    let all = ack_frame(members, replication) + rest;
    lemma_number_is_short(members.len());
    lemma_number_is_short(replication);
    assert(all =~= line.push(10) + body);
    lemma_line(line, body, ended);
    lemma_numbers_split(members.len(), decimal(replication));
    lemma_numbers_split(replication, Seq::empty());
    assert(line.skip(2) =~= decimal(members.len()).push(32) + decimal(replication));
    assert(numbers(line.skip(2)) =~= seq![Some(members.len()), Some(replication)]);
    assert(line != seq![65u8]) by {
        assert(line.len() > 1);
    }
    lemma_ack_entries_read_back(members, rest, ended);
    lemma_line(seq![65u8], rest, ended);
    assert(seq![65u8].push(10) + rest =~= seq![65u8, 10u8] + rest);
}

/// A line of three lengths.
spec fn three_lengths(a: nat, b: nat, c: nat) -> Seq<u8> {
    decimal(a).push(32) + (decimal(b).push(32) + decimal(c))
}

proof fn lemma_three_lengths(a: nat, b: nat, c: nat, rest: Seq<u8>, ended: bool)
    requires
        a <= usize::MAX,
        b <= usize::MAX,
        c <= usize::MAX,
    ensures
        ({
            let line = three_lengths(a, b, c);
            let all = line.push(10) + rest;
            &&& line.len() < MAX_ROSTER_LINE_LEN
            &&& line_read(all, ended, MAX_ROSTER_LINE_LEN as nat) == LineRead::Whole(
                line.len() as usize,
            )
            &&& numbers(all.take(line.len() as int)) == seq![Some(a), Some(b), Some(c)]
        }),
{
    let line = three_lengths(a, b, c);
    let tail = decimal(b).push(32) + decimal(c);
    lemma_number_is_short(a);
    lemma_number_is_short(b);
    lemma_number_is_short(c);
    assert forall|i: int| 0 <= i < tail.len() implies tail[i] != 10 by {
        if i < decimal(b).len() {
            assert(is_digit(decimal(b)[i]));
        } else if i > decimal(b).len() {
            assert(is_digit(decimal(c)[i - decimal(b).len() - 1]));
        }
    }
    assert forall|i: int| 0 <= i < line.len() implies line[i] != 10 by {
        if i < decimal(a).len() {
            assert(is_digit(decimal(a)[i]));
        } else if i > decimal(a).len() {
            assert(line[i] == tail[i - decimal(a).len() - 1]);
        }
    }
    lemma_line(line, rest, ended);
    lemma_numbers_split(a, tail);
    lemma_numbers_split(b, decimal(c));
    lemma_numbers_split(c, Seq::empty());
    assert(numbers(line) =~= seq![Some(a), Some(b), Some(c)]);
}

/// The text that a text's bytes stand for is the text.
proof fn lemma_text_reads_back(text: Seq<char>)
    ensures
        received_text(text_bytes(text)) == text,
{
    encode_utf8_valid_utf8(text);
    encode_utf8_decode_utf8(text);
}

proof fn lemma_roster_entry_reads_back(member: RosterEntryView, rest: Seq<u8>, ended: bool)
    requires
        fits_roster(member),
    ensures
        roster_entry(roster_entry_frame(member) + rest, ended) == (Piece::Took {
            value: member,
            used: roster_entry_frame(member).len(),
        }),
{
    let name = text_bytes(member.name);
    let addr = text_bytes(member.addr);
    let token = text_bytes(member.token);
    let line = three_lengths(name.len(), addr.len(), token.len());
    let body = (name + addr + token).push(10) + rest;
    let all = roster_entry_frame(member) + rest;
    assert(all =~= line.push(10) + body);
    lemma_three_lengths(name.len(), addr.len(), token.len(), body, ended);
    let start = line.len() as int + 1;
    let second = start + name.len();
    let third = second + addr.len();
    let stop = third + token.len();
    assert(all.subrange(start, second) =~= name);
    assert(all.subrange(second, third) =~= addr);
    assert(all.subrange(third, stop) =~= token);
    assert(all.len() >= stop + 1);
    assert(roster_entry_frame(member).len() == stop + 1);
    lemma_text_reads_back(member.name);
    lemma_text_reads_back(member.addr);
    lemma_text_reads_back(member.token);
    reveal(roster_entry);
}

/// Whether a member fits into a roster with addresses and tokens.
pub open spec fn fits_roster(member: RosterEntryView) -> bool {
    &&& text_bytes(member.name).len() <= MAX_NAME_ADDR_OR_TOKEN_LENGTH
    &&& text_bytes(member.addr).len() <= MAX_NAME_ADDR_OR_TOKEN_LENGTH
    &&& text_bytes(member.token).len() <= MAX_NAME_ADDR_OR_TOKEN_LENGTH
}

proof fn lemma_roster_entries_read_back(members: Seq<RosterEntryView>, rest: Seq<u8>, ended: bool)
    requires
        forall|i: int| 0 <= i < members.len() ==> fits_roster(#[trigger] members[i]),
    ensures
        roster_entries(roster_entry_frames(members) + rest, ended, members.len()) == (Piece::Took {
            value: members,
            used: roster_entry_frames(members).len(),
        }),
    decreases members.len(),
{
    if members.len() == 0 {
        assert(members =~= Seq::empty());
    } else {
        let others = members.drop_first();
        let first = roster_entry_frame(members[0]);
        let tail = roster_entry_frames(others) + rest;
        let all = roster_entry_frames(members) + rest;
        assert(fits_roster(members[0]));
        lemma_roster_entry_reads_back(members[0], tail, ended);
        assert forall|i: int| 0 <= i < others.len() implies fits_roster(#[trigger] others[i]) by {
            assert(others[i] == members[i + 1]);
        }
        lemma_roster_entries_read_back(others, rest, ended);
        assert(all =~= first + tail);
        assert(all.skip(first.len() as int) =~= tail);
        assert(seq![members[0]] + others =~= members);
    }
}

/// The roster that is read is the one that was written.
pub proof fn law_roster_reads_back(
    members: Seq<RosterEntryView>,
    replication: nat,
    rest: Seq<u8>,
    ended: bool,
)
    requires
        members.len() <= MAX_ADDRESSED_ENTRIES,
        1 <= replication <= usize::MAX,
        forall|i: int| 0 <= i < members.len() ==> fits_roster(#[trigger] members[i]),
    ensures
        roster_read(roster_frame(members, replication) + rest, ended) == (Piece::Took {
            value: (members, replication),
            used: roster_frame(members, replication).len(),
        }),
{
    let line = seq![78u8, 32u8] + (decimal(members.len()).push(32) + decimal(replication));
    let body = roster_entry_frames(members) + rest;
    let all = roster_frame(members, replication) + rest;
    lemma_number_is_short(members.len());
    lemma_number_is_short(replication);
    assert(all =~= line.push(10) + body);
    lemma_line(line, body, ended);
    lemma_numbers_split(members.len(), decimal(replication));
    lemma_numbers_split(replication, Seq::empty());
    assert(line.skip(2) =~= decimal(members.len()).push(32) + decimal(replication));
    assert(numbers(line.skip(2)) =~= seq![Some(members.len()), Some(replication)]);
    assert(line != seq![66u8]) by {
        assert(line.len() > 1);
    }
    lemma_roster_entries_read_back(members, rest, ended);
}

/// Which discovery server to ask for a roster next.
#[derive(Clone, Copy, Debug, PartialEq, Eq, Structural)]
pub enum FetchStep {
    Ask(usize),
    /// None is left: the fetch fails with the last error.
    GiveUp,
}

/// Goes on with a fetch of which `failed` servers, in their order, have brought
/// nothing. The first answer is taken.
pub fn next_fetch(failed: usize, servers: usize) -> (step: FetchStep)
    ensures
        step == if failed < servers {
            FetchStep::Ask(failed)
        } else {
            FetchStep::GiveUp
        },
{
    if failed < servers {
        FetchStep::Ask(failed)
    } else {
        FetchStep::GiveUp
    }
}

/// What a fetch fails with if there is no server to ask.
pub fn nothing_to_ask() -> (error: ConnectionError)
    ensures
        error.says(ErrorKind::Other, "no discovery replicas configured"@),
{
    failure(ErrorKind::Other, "no discovery replicas configured")
}

/// An acknowledgement that is taken is one: it opens with `A`, its members are no
/// more than it may list, its replication factor is at least one, and it holds
/// no byte that was not received. It brings no news just if it is `A` alone.
pub proof fn law_taken_ack_is_one(unread: Seq<u8>, ended: bool)
    requires
        unread.len() <= usize::MAX,
        ack_read(unread, ended) is Took,
    ensures
        ack_read(unread, ended) matches Piece::Took { value, used } && unread.len() >= 2
            && unread[0] == 65 && 2 <= used <= unread.len() && (value is None <==> unread[1] == 10)
            && (value matches Some((names, replication)) ==> unread[1] == 32 && names.len()
            <= 65_536 && replication >= 1),
{
    let line = line_read(unread, ended, MAX_ROSTER_LINE_LEN as nat);
    lemma_position(unread, 10u8);
    match ack_header(unread, ended) {
        Piece::Took { value, used } => {
            let end = line->0 as int;
            let head = unread.take(end);
            if value is None {
                assert(head == seq![65u8]);
                assert(head[0] == unread[0]);
                assert(head.len() == 1);
            } else {
                assert(head[0] == unread[0] && head[1] == unread[1]);
                let (count, replication) = value->0;
                lemma_ack_entries_taken(unread.skip(used as int), ended, count);
            }
        },
        _ => {},
    }
}

proof fn lemma_ack_entries_taken(unread: Seq<u8>, ended: bool, left: nat)
    requires
        ack_entries(unread, ended, left) is Took,
    ensures
        ack_entries(unread, ended, left)->Took_value.len() == left,
        ack_entries(unread, ended, left)->used <= unread.len(),
    decreases left,
{
    if left > 0 {
        lemma_ack_entry_taken(unread, ended, Seq::empty(), ended);
        let used = ack_entry(unread, ended)->used;
        lemma_ack_entries_taken(unread.skip(used as int), ended, (left - 1) as nat);
    }
}

/// A roster that is taken is one: it opens with `N`, lists no more members than
/// it may, and its replication factor is at least one. That the server does not
/// know its members yet is read from `B` alone.
pub proof fn law_taken_roster_is_one(unread: Seq<u8>, ended: bool)
    requires
        unread.len() <= usize::MAX,
    ensures
        roster_read(unread, ended) matches Piece::Took { value, used } ==> unread.len() >= 2
            && unread[0] == 78 && unread[1] == 32 && used <= unread.len() && value.0.len() <= 4096
            && value.1 >= 1,
        unread.len() >= 2 && unread[0] == 66 && unread[1] == 10 ==> roster_read(unread, ended) == (
        Piece::<(Seq<RosterEntryView>, nat)>::Failed(ReadFault::Grace)),
{
    let line = line_read(unread, ended, MAX_ROSTER_LINE_LEN as nat);
    lemma_position(unread, 10u8);
    if unread.len() >= 2 && unread[0] == 66 && unread[1] == 10 {
        lemma_is_position(unread, 10u8, 1);
        assert(unread.take(1) =~= seq![66u8]);
    }
    match roster_header(unread, ended) {
        Piece::Took { value: (count, replication), used } => {
            let end = line->0 as int;
            let head = unread.take(end);
            assert(head[0] == unread[0] && head[1] == unread[1]);
            if roster_read(unread, ended) is Took {
                lemma_roster_entries_taken(unread.skip(used as int), ended, count);
            }
        },
        _ => {},
    }
}

proof fn lemma_roster_entries_taken(unread: Seq<u8>, ended: bool, left: nat)
    requires
        roster_entries(unread, ended, left) is Took,
    ensures
        roster_entries(unread, ended, left)->Took_value.len() == left,
        roster_entries(unread, ended, left)->used <= unread.len(),
    decreases left,
{
    if left > 0 {
        lemma_roster_entry_taken(unread, ended, Seq::empty(), ended);
        let used = roster_entry(unread, ended)->used;
        lemma_roster_entries_taken(unread.skip(used as int), ended, (left - 1) as nat);
    }
}

/// Nothing is waited for once the stream has ended: what is not all there then is
/// a fault, and before that it is none.
pub proof fn law_ended_stream_is_decided(unread: Seq<u8>)
    ensures
        !(ack_read(unread, true) is More),
        !(roster_read(unread, true) is More),
        ack_read(unread, false) != (Piece::<Option<(Seq<Seq<char>>, nat)>>::Failed(ReadFault::Cut)),
        roster_read(unread, false) != (Piece::<(Seq<RosterEntryView>, nat)>::Failed(
            ReadFault::Cut,
        )),
{
    if let Piece::Took { value: Some((count, _)), used } = ack_header(unread, true) {
        lemma_entries_ended(unread.skip(used as int), count);
    }
    if let Piece::Took { value: Some((count, _)), used } = ack_header(unread, false) {
        lemma_entries_ended(unread.skip(used as int), count);
    }
    if let Piece::Took { value: (count, _), used } = roster_header(unread, true) {
        lemma_entries_ended(unread.skip(used as int), count);
    }
    if let Piece::Took { value: (count, _), used } = roster_header(unread, false) {
        lemma_entries_ended(unread.skip(used as int), count);
    }
}

proof fn lemma_entries_ended(unread: Seq<u8>, left: nat)
    ensures
        !(ack_entries(unread, true, left) is More),
        !(roster_entries(unread, true, left) is More),
        ack_entries(unread, false, left) != (Piece::<Seq<Seq<char>>>::Failed(ReadFault::Cut)),
        roster_entries(unread, false, left) != (Piece::<Seq<RosterEntryView>>::Failed(
            ReadFault::Cut,
        )),
    decreases left,
{
    reveal(ack_entry);
    reveal(roster_entry);
    if left > 0 {
        if let Piece::Took { used, .. } = ack_entry(unread, true) {
            lemma_entries_ended(unread.skip(used as int), (left - 1) as nat);
        }
        if let Piece::Took { used, .. } = ack_entry(unread, false) {
            lemma_entries_ended(unread.skip(used as int), (left - 1) as nat);
        }
        if let Piece::Took { used, .. } = roster_entry(unread, true) {
            lemma_entries_ended(unread.skip(used as int), (left - 1) as nat);
        }
        if let Piece::Took { used, .. } = roster_entry(unread, false) {
            lemma_entries_ended(unread.skip(used as int), (left - 1) as nat);
        }
    }
}

/// A header that goes over its bounds is refused: more members than may be
/// listed, or a replication factor of none.
pub proof fn law_header_over_its_bounds_is_refused(
    count: nat,
    replication: nat,
    rest: Seq<u8>,
    ended: bool,
)
    requires
        count <= usize::MAX,
        replication <= usize::MAX,
    ensures
        count > 65_536 || replication == 0 ==> ack_read(
            (seq![65u8, 32u8] + (decimal(count).push(32) + decimal(replication))).push(10) + rest,
            ended,
        ) == (Piece::<Option<(Seq<Seq<char>>, nat)>>::Failed(ReadFault::Malformed)),
        count > 4096 || replication == 0 ==> roster_read(
            (seq![78u8, 32u8] + (decimal(count).push(32) + decimal(replication))).push(10) + rest,
            ended,
        ) == (Piece::<(Seq<RosterEntryView>, nat)>::Failed(ReadFault::Malformed)),
{
    lemma_header_line(65, count, replication, rest, ended);
    lemma_header_line(78, count, replication, rest, ended);
}

proof fn lemma_header_line(
    letter: u8,
    count: nat,
    replication: nat,
    rest: Seq<u8>,
    ended: bool,
)
    requires
        letter != 10,
        count <= usize::MAX,
        replication <= usize::MAX,
    ensures
        ({
            let line = seq![letter, 32u8] + (decimal(count).push(32) + decimal(replication));
            let all = line.push(10) + rest;
            &&& line_read(all, ended, MAX_ROSTER_LINE_LEN as nat) == LineRead::Whole(
                line.len() as usize,
            )
            &&& all.take(line.len() as int) == line
            &&& numbers(line.skip(2)) == seq![Some(count), Some(replication)]
            &&& line.len() > 2
            &&& line.len() <= usize::MAX
        }),
{
    lemma_number_is_short(count);
    lemma_number_is_short(replication);
    let tail = decimal(count).push(32) + decimal(replication);
    let line = seq![letter, 32u8] + tail;
    assert forall|i: int| 0 <= i < line.len() implies line[i] != 10 by {
        if i >= 2 {
            assert(line[i] == tail[i - 2]);
            if i - 2 < decimal(count).len() {
                assert(tail[i - 2] == decimal(count)[i - 2]);
            } else if i - 2 > decimal(count).len() {
                assert(tail[i - 2] == decimal(replication)[i - 3 - decimal(count).len()]);
            }
        }
    }
    lemma_line(line, rest, ended);
    assert(line.skip(2) =~= tail);
    lemma_numbers_split(count, decimal(replication));
    lemma_numbers_split(replication, Seq::empty());
    assert(seq![Some(count)] + seq![Some(replication)] =~= seq![Some(count), Some(replication)]);
}

/// Each fault is reported as what it is, and no two alike: too long a line and an
/// answer of another form are bad data, a cut stream is an early end, and a
/// server that does not know its members yet is asked to wait.
pub proof fn law_faults_are_reported_as_they_are(
    fault: ReadFault,
    error: ConnectionError,
    malformed: Seq<char>,
)
    requires
        fault.reported(error, malformed),
    ensures
        fault is TooLong || fault is Malformed <==> error.kind == ErrorKind::InvalidData,
        fault is Cut <==> error.kind == ErrorKind::UnexpectedEof,
        fault is Grace <==> error.kind == ErrorKind::WouldBlock,
        fault is Malformed ==> error.text@ == malformed,
{
}

/// A member whose name or address is longer than it may be is refused.
pub proof fn law_oversized_member_is_refused(
    name: nat,
    addr: nat,
    token: nat,
    rest: Seq<u8>,
    ended: bool,
)
    requires
        name <= usize::MAX,
        addr <= usize::MAX,
        token <= usize::MAX,
    ensures
        name > 4096 || addr > 4096 ==> ack_entry(
            (decimal(name).push(32) + decimal(addr)).push(10) + rest,
            ended,
        ) == (Piece::<Seq<char>>::Failed(ReadFault::Malformed)),
        name > 1024 || addr > 1024 || token > 1024 ==> roster_entry(
            (decimal(name).push(32) + (decimal(addr).push(32) + decimal(token))).push(10) + rest,
            ended,
        ) == (Piece::<RosterEntryView>::Failed(ReadFault::Malformed)),
{
    reveal(ack_entry);
    reveal(roster_entry);
    lemma_number_is_short(name);
    lemma_number_is_short(addr);
    let line = decimal(name).push(32) + decimal(addr);
    assert forall|i: int| 0 <= i < line.len() implies line[i] != 10 by {
        if i < decimal(name).len() {
            assert(line[i] == decimal(name)[i]);
        } else if i > decimal(name).len() {
            assert(line[i] == decimal(addr)[i - 1 - decimal(name).len()]);
        }
    }
    lemma_line(line, rest, ended);
    lemma_numbers_split(name, decimal(addr));
    lemma_numbers_split(addr, Seq::empty());
    assert(seq![Some(name)] + seq![Some(addr)] =~= seq![Some(name), Some(addr)]);
    lemma_three_lengths(name, addr, token, rest, ended);
}

/// A member of an acknowledgement ends with a line feed, and its name is text:
/// what is not so is refused.
pub proof fn law_member_ends_with_a_line_feed(
    name: Seq<u8>,
    addr: Seq<u8>,
    last: u8,
    rest: Seq<u8>,
    ended: bool,
)
    requires
        name.len() <= 4096,
        addr.len() <= 4096,
        last != 10 || !valid_utf8(name),
    ensures
        ack_entry(
            (decimal(name.len()).push(32) + decimal(addr.len())).push(10) + ((name + addr).push(
                last,
            ) + rest),
            ended,
        ) == (Piece::<Seq<char>>::Failed(ReadFault::Malformed)),
{
    reveal(ack_entry);
    lemma_number_is_short(name.len());
    lemma_number_is_short(addr.len());
    let line = decimal(name.len()).push(32) + decimal(addr.len());
    assert forall|i: int| 0 <= i < line.len() implies line[i] != 10 by {
        if i < decimal(name.len()).len() {
            assert(line[i] == decimal(name.len())[i]);
        } else if i > decimal(name.len()).len() {
            assert(line[i] == decimal(addr.len())[i - 1 - decimal(name.len()).len()]);
        }
    }
    let tail = (name + addr).push(last) + rest;
    let all = line.push(10) + tail;
    lemma_line(line, tail, ended);
    lemma_numbers_split(name.len(), decimal(addr.len()));
    lemma_numbers_split(addr.len(), Seq::empty());
    assert(seq![Some(name.len())] + seq![Some(addr.len())] =~= seq![
        Some(name.len()),
        Some(addr.len()),
    ]);
    let start = line.len() as int + 1;
    assert(all.subrange(start, start + name.len()) =~= name);
    assert(all[start + name.len() + addr.len()] == last);
}

/// A line that has no line feed within its limit is refused as soon as there is
/// more of it, whatever comes.
pub proof fn law_long_line_is_refused(unread: Seq<u8>, ended: bool)
    requires
        unread.len() > 64,
        forall|i: int| 0 <= i < 64 ==> #[trigger] unread[i] != 10,
    ensures
        ack_read(unread, ended) == (Piece::<Option<(Seq<Seq<char>>, nat)>>::Failed(
            ReadFault::TooLong,
        )),
        roster_read(unread, ended) == (Piece::<(Seq<RosterEntryView>, nat)>::Failed(
            ReadFault::TooLong,
        )),
        ack_entry(unread, ended) == (Piece::<Seq<char>>::Failed(ReadFault::TooLong)),
        roster_entry(unread, ended) == (Piece::<RosterEntryView>::Failed(ReadFault::TooLong)),
{
    reveal(ack_entry);
    reveal(roster_entry);
    lemma_position(unread, 10u8);
    let end = position(unread, 10u8) as int;
    if end < 64 {
        assert(unread[end] == 10);
    }
}

/// The servers are asked for a roster one after the other, each once; the fetch
/// is given up just when none is left.
pub proof fn law_every_server_is_asked_once(failed: usize, servers: usize, step: FetchStep)
    requires
        call_ensures(next_fetch, (failed, servers), step),
    ensures
        step is GiveUp <==> failed >= servers,
        step matches FetchStep::Ask(server) ==> server == failed && server < servers,
{
}

/// A member of a roster is read by its lengths: after the line that gives them
/// come the name, the address and the token, in that order, and one byte more,
/// whatever it is.
pub proof fn law_member_is_read_by_its_lengths(
    name: Seq<char>,
    addr: Seq<char>,
    token: Seq<char>,
    last: u8,
    rest: Seq<u8>,
    ended: bool,
)
    requires
        text_bytes(name).len() <= 1024,
        text_bytes(addr).len() <= 1024,
        text_bytes(token).len() <= 1024,
    ensures
        ({
            let line = decimal(text_bytes(name).len()).push(32) + (decimal(
                text_bytes(addr).len(),
            ).push(32) + decimal(text_bytes(token).len()));
            let body = (text_bytes(name) + text_bytes(addr) + text_bytes(token)).push(last);
            let read = roster_entry(line.push(10) + (body + rest), ended);
            &&& read matches Piece::Took { value, used } && value.name == name && value.addr == addr
                && value.token == token && used == line.len() + 1 + body.len()
        }),
{
    reveal(roster_entry);
    let n = text_bytes(name);
    let a = text_bytes(addr);
    let t = text_bytes(token);
    let line = three_lengths(n.len(), a.len(), t.len());
    let body = (n + a + t).push(last);
    let all = line.push(10) + (body + rest);
    lemma_three_lengths(n.len(), a.len(), t.len(), body + rest, ended);
    let start = line.len() as int + 1;
    assert(all.subrange(start, start + n.len()) =~= n);
    assert(all.subrange(start + n.len(), start + n.len() + a.len()) =~= a);
    assert(all.subrange(start + n.len() + a.len(), start + n.len() + a.len() + t.len()) =~= t);
    lemma_text_reads_back(name);
    lemma_text_reads_back(addr);
    lemma_text_reads_back(token);
}

/// A member of an acknowledgement is read by its lengths: after the line that
/// gives them come the name and the address, of which the name is kept, and a
/// line feed.
pub proof fn law_listed_name_is_read_by_its_lengths(
    name: Seq<char>,
    addr: Seq<u8>,
    rest: Seq<u8>,
    ended: bool,
)
    requires
        text_bytes(name).len() <= 4096,
        addr.len() <= 4096,
    ensures
        ({
            let line = decimal(text_bytes(name).len()).push(32) + decimal(addr.len());
            let body = (text_bytes(name) + addr).push(10);
            let read = ack_entry(line.push(10) + body + rest, ended);
            read matches Piece::Took { value, used } && value == name && used == line.len() + 1
                + body.len()
        }),
{
    lemma_ack_entry_reads_back(name, addr, rest, ended);
}

} // verus!
