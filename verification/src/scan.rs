//! Taking lines and fields out of received bytes.
use vstd::prelude::*;
use vstd::slice::slice_subrange;
use vstd::utf8::decode_utf8;
use vstd::utf8::valid_utf8;

use crate::text::decimal;
use crate::text::is_digit;
use crate::text::lemma_decimal_round_trip;
use crate::text::lemma_number_field_of_decimal;
use crate::text::number_field;
use crate::text::parse_number;
use crate::text::same_bytes;

verus! {

/// Where an item stands first, or the length if it does not occur.
pub open spec fn position<T>(items: Seq<T>, item: T) -> nat
    decreases items.len(),
{
    if items.len() == 0 || items[0] == item {
        0
    } else {
        1 + position(items.drop_first(), item)
    }
}

/// The position is the first place of the item.
pub proof fn lemma_position<T>(items: Seq<T>, item: T)
    ensures
        position(items, item) <= items.len(),
        position(items, item) < items.len() ==> items[position(items, item) as int] == item,
        forall|i: int| 0 <= i < position(items, item) ==> items[i] != item,
    decreases items.len(),
{
    if items.len() > 0 && items[0] != item {
        let rest = items.drop_first();
        lemma_position(rest, item);
        assert forall|i: int| 0 <= i < position(items, item) implies items[i] != item by {
            if i > 0 {
                assert(rest[i - 1] == items[i]);
            }
        }
    }
}

/// The first place of the item is the position.
pub proof fn lemma_is_position<T>(items: Seq<T>, item: T, place: int)
    requires
        0 <= place <= items.len(),
        place < items.len() ==> items[place] == item,
        forall|i: int| 0 <= i < place ==> items[i] != item,
    ensures
        position(items, item) == place,
{
    lemma_position(items, item);
    let found = position(items, item) as int;
    if found < place {
        assert(items[found] != item);
    } else if place < found {
        assert(items[place] != item);
    }
}

/// Where a byte stands first.
pub fn find(bytes: &[u8], byte: u8) -> (place: usize)
    ensures
        place == position(bytes@, byte),
{
    let mut index: usize = 0;
    while index < bytes.len() && bytes[index] != byte
        invariant
            index <= bytes.len(),
            forall|i: int| 0 <= i < index ==> bytes@[i] != byte,
        decreases bytes.len() - index,
    {
        index += 1;
    }
    proof {
        lemma_is_position(bytes@, byte, index as int);
    }
    index
}

/// The numbers on a line, one for each field between its spaces; a field that is
/// no number has none.
pub open spec fn numbers(line: Seq<u8>) -> Seq<Option<nat>>
    decreases line.len(),
{
    let end = position(line, 32u8) as int;
    if end >= line.len() {
        seq![number_field(line, usize::MAX as nat)]
    } else {
        seq![number_field(line.take(end), usize::MAX as nat)] + numbers(line.skip(end + 1))
    }
}

/// A list of numbers, by value.
pub open spec fn number_views(found: Seq<Option<usize>>) -> Seq<Option<nat>> {
    found.map_values(
        |number: Option<usize>|
            match number {
                Some(n) => Some(n as nat),
                None => None,
            },
    )
}

/// Reads the numbers in the fields of a line.
pub fn read_numbers(line: &[u8]) -> (found: Vec<Option<usize>>)
    ensures
        number_views(found@) == numbers(line@),
{
    let mut found: Vec<Option<usize>> = Vec::new();
    let mut rest: &[u8] = line;
    let mut going = true;
    assert(number_views(found@) =~= Seq::empty());
    while going
        invariant
            going ==> numbers(line@) == number_views(found@) + numbers(rest@),
            !going ==> numbers(line@) == number_views(found@),
        decreases
                if going {
                    rest@.len() + 1
                } else {
                    0
                },
    {
        let end: usize = find(rest, 32);
        proof {
            lemma_position(rest@, 32u8);
        }
        let ghost before = number_views(found@);
        let field = slice_subrange(rest, 0, end);
        assert(field@ =~= rest@.take(end as int));
        assert(end == rest@.len() ==> field@ =~= rest@);
        let number: Option<usize> = match parse_number(field, usize::MAX as u64) {
            Some(n) => Some(n as usize),
            None => None,
        };
        found.push(number);
        let ghost last = number_field(field@, usize::MAX as nat);
        assert(number_views(found@) =~= before + seq![last]);
        if end >= rest.len() {
            going = false;
        } else {
            let tail = slice_subrange(rest, end + 1, rest.len());
            assert(tail@ =~= rest@.skip(end + 1));
            assert(before + (seq![last] + numbers(tail@)) =~= number_views(found@) + numbers(
                tail@,
            ));
            rest = tail;
        }
    }
    found
}

/// Whether a byte string occurs within another.
pub open spec fn occurs(bytes: Seq<u8>, within: Seq<u8>) -> bool {
    exists|i: int|
        0 <= i <= within.len() - bytes.len() && #[trigger] within.subrange(i, i + bytes.len())
            == bytes
}

/// Looks for a byte string within another.
pub fn contains_bytes(within: &[u8], bytes: &[u8]) -> (found: bool)
    ensures
        found == occurs(bytes@, within@),
{
    if bytes.len() > within.len() {
        return false;
    }
    let last: usize = within.len() - bytes.len();
    let mut index: usize = 0;
    while index <= last
        invariant
            last == within.len() - bytes.len(),
            index <= last + 1,
            forall|i: int|
                0 <= i < index ==> #[trigger] within@.subrange(i, i + bytes@.len()) != bytes@,
        decreases last + 1 - index,
    {
        if same_bytes(slice_subrange(within, index, index + bytes.len()), bytes) {
            assert(within@.subrange(index as int, index + bytes@.len()) == bytes@);
            return true;
        }
        if index == last {
            return false;
        }
        index += 1;
    }
    false
}

/// `String::push` appends a character.
pub assume_specification[ String::push ](text: &mut String, character: char)
    ensures
        final(text)@ == old(text)@.push(character),
;

/// `String::push_str` appends a text.
pub assume_specification[ String::push_str ](text: &mut String, tail: &str)
    ensures
        final(text)@ == old(text)@ + tail@,
;

/// The characters of a text.
pub fn characters(text: &str) -> (found: Vec<char>)
    ensures
        found@ == text@,
{
    let mut found: Vec<char> = Vec::new();
    let mut rest = text.chars();
    for character in iter: rest
        invariant
            found@ == iter.seq().take(iter.index() as int),
    {
        found.push(character);
    }
    found
}

/// The text that characters form.
pub fn text_of(characters: &Vec<char>, from: usize, to: usize) -> (text: String)
    requires
        from <= to <= characters.len(),
    ensures
        text@ == characters@.subrange(from as int, to as int),
{
    let mut text = String::new();
    let mut index: usize = from;
    while index < to
        invariant
            from <= index <= to <= characters.len(),
            text@ == characters@.subrange(from as int, index as int),
        decreases to - index,
    {
        text.push(characters[index]);
        index += 1;
        assert(text@ =~= characters@.subrange(from as int, index as int));
    }
    text
}

/// What a line of numbers begins with.
pub proof fn lemma_numbers_split(n: nat, rest: Seq<u8>)
    requires
        n <= usize::MAX,
    ensures
        numbers(decimal(n)) == seq![Some(n)],
        numbers(decimal(n).push(32) + rest) == seq![Some(n)] + numbers(rest),
        decimal(n).len() > 0,
{
    lemma_decimal_round_trip(n);
    lemma_number_field_of_decimal(n, usize::MAX as nat);
    let digits = decimal(n);
    assert forall|i: int| 0 <= i < digits.len() implies digits[i] != 32 by {
        assert(is_digit(digits[i]));
    }
    lemma_is_position(digits, 32, digits.len() as int);
    let line = digits.push(32) + rest;
    assert forall|i: int| 0 <= i < digits.len() implies line[i] != 32 by {
        assert(line[i] == digits[i]);
    }
    assert(line[digits.len() as int] == 32);
    lemma_is_position(line, 32, digits.len() as int);
    assert(line.take(digits.len() as int) =~= digits);
    assert(line.skip(digits.len() as int + 1) =~= rest);
}

/// The fields of two lines with a space between them are those of the one and
/// then those of the other.
pub proof fn lemma_numbers_concat(line: Seq<u8>, rest: Seq<u8>)
    ensures
        numbers(line.push(32) + rest) == numbers(line) + numbers(rest),
    decreases line.len(),
{
    let whole = line.push(32) + rest;
    let end = position(line, 32u8) as int;
    lemma_position(line, 32u8);
    assert forall|i: int| 0 <= i < end implies whole[i] != 32 by {
        assert(whole[i] == line[i]);
    }
    assert(whole[end] == 32) by {
        if end < line.len() {
            assert(whole[end] == line[end]);
        }
    }
    lemma_is_position(whole, 32u8, end);
    assert(whole.take(end) =~= line.take(end));
    if end >= line.len() {
        assert(line.take(end) =~= line);
        assert(whole.skip(end + 1) =~= rest);
    } else {
        lemma_numbers_concat(line.skip(end + 1), rest);
        assert(whole.skip(end + 1) =~= line.skip(end + 1).push(32) + rest);
        assert(numbers(whole) =~= numbers(line) + numbers(rest));
    }
}

/// What the start of a byte stream holds.
#[derive(Clone, Copy, Debug, PartialEq, Eq, Structural)]
pub enum LineRead {
    /// A line of this length, its line feed not counted.
    Whole(usize),
    /// Part of a line; more may come.
    More,
    /// A line that is over its limit, whatever comes.
    TooLong,
    /// Part of a line, at the end of the stream.
    Cut,
}

/// What `unread` holds, if a line may have `limit` bytes with its line feed.
pub open spec fn line_read(unread: Seq<u8>, ended: bool, limit: nat) -> LineRead {
    let end = position(unread, 10u8);
    if end < unread.len() {
        if end + 1 > limit {
            LineRead::TooLong
        } else {
            LineRead::Whole(end as usize)
        }
    } else if unread.len() > limit {
        LineRead::TooLong
    } else if ended {
        LineRead::Cut
    } else {
        LineRead::More
    }
}

/// Looks for a line at the start of the bytes received and not yet read;
/// `ended` says that no more will come. No line makes the receiver hold more
/// than its limit.
pub fn read_line_capped(unread: &[u8], ended: bool, limit: usize) -> (read: LineRead)
    ensures
        read == line_read(unread@, ended, limit as nat),
{
    let end: usize = find(unread, 10);
    proof {
        lemma_position(unread@, 10u8);
    }
    if end < unread.len() {
        if end >= limit {
            return LineRead::TooLong;
        }
        return LineRead::Whole(end);
    }
    if unread.len() > limit {
        return LineRead::TooLong;
    }
    if ended {
        LineRead::Cut
    } else {
        LineRead::More
    }
}

/// A line is the same however the stream is cut into pieces: what has been
/// decided stays decided when more comes in.
pub proof fn law_line_is_decided_by_its_bytes(
    unread: Seq<u8>,
    more: Seq<u8>,
    ended: bool,
    limit: nat,
)
    requires
        line_read(unread, false, limit) != LineRead::More,
    ensures
        line_read(unread + more, ended, limit) == line_read(unread, false, limit),
{
    let all = unread + more;
    lemma_position(unread, 10u8);
    lemma_position(all, 10u8);
    let end = position(unread, 10u8) as int;
    if end < unread.len() {
        assert(all[end] == 10);
        assert forall|i: int| 0 <= i < end implies all[i] != 10 by {
            assert(all[i] == unread[i]);
        }
        lemma_is_position(all, 10, end);
    } else {
        let found = position(all, 10u8) as int;
        if found < unread.len() {
            assert(all[found] == unread[found]);
        }
    }
}

/// Part of a line never takes more room than its limit.
pub proof fn law_unfinished_line_is_bounded(unread: Seq<u8>, ended: bool, limit: nat)
    ensures
        line_read(unread, ended, limit) == LineRead::More ==> unread.len() <= limit,
        line_read(unread, ended, limit) == LineRead::Cut ==> unread.len() <= limit,
{
}

/// The text that stands for bytes that are no UTF-8, with the replacement
/// character in place of what cannot be decoded.
pub uninterp spec fn lossy_text(bytes: Seq<u8>) -> Seq<char>;

/// The text that received bytes stand for.
pub open spec fn received_text(bytes: Seq<u8>) -> Seq<char> {
    if valid_utf8(bytes) {
        decode_utf8(bytes)
    } else {
        lossy_text(bytes)
    }
}

/// Calls `String::from_utf8_lossy`. Its result depends on the bytes alone; bytes
/// that are UTF-8 come out as the text they encode.
#[verifier::external_body]
pub(crate) fn text_from_utf8_lossy(bytes: &[u8]) -> (text: String)
    ensures
        text@ == if valid_utf8(bytes@) {
            decode_utf8(bytes@)
        } else {
            lossy_text(bytes@)
        },
{
    String::from_utf8_lossy(bytes).into_owned()
}

/// Calls `String::from_utf8`: bytes that are UTF-8 come out as the text they
/// encode, and no others do.
#[verifier::external_body]
pub(crate) fn text_from_utf8(bytes: Vec<u8>) -> (text: Option<String>)
    ensures
        match text {
            Some(decoded) => valid_utf8(bytes@) && decoded@ == decode_utf8(bytes@),
            None => !valid_utf8(bytes@),
        },
{
    String::from_utf8(bytes).ok()
}

/// A line is found just where its line feed is the first and comes within the
/// limit; what has no line feed within the limit is too long as soon as there is
/// more of it; and as long as there is not, more may come until the stream ends.
pub proof fn law_line_ends_at_its_first_line_feed(
    unread: Seq<u8>,
    ended: bool,
    limit: nat,
    place: int,
)
    requires
        unread.len() <= usize::MAX,
        0 <= place <= unread.len(),
        forall|i: int| 0 <= i < place ==> #[trigger] unread[i] != 10,
    ensures
        place < unread.len() && unread[place] == 10 && place < limit ==> line_read(
            unread,
            ended,
            limit,
        ) == LineRead::Whole(place as usize),
        place < unread.len() && unread[place] == 10 && place >= limit ==> line_read(
            unread,
            ended,
            limit,
        ) == LineRead::TooLong,
        place == unread.len() && place > limit ==> line_read(unread, ended, limit)
            == LineRead::TooLong,
        place == unread.len() && place <= limit ==> line_read(unread, ended, limit) == if ended {
            LineRead::Cut
        } else {
            LineRead::More
        },
{
    if place == unread.len() || unread[place] == 10 {
        lemma_is_position(unread, 10u8, place);
    }
}

/// A line of numbers has one field more than it has spaces: what stands between
/// two of them is read on its own.
pub proof fn law_fields_are_split_at_spaces(field: Seq<u8>, rest: Seq<u8>)
    requires
        forall|i: int| 0 <= i < field.len() ==> #[trigger] field[i] != 32,
    ensures
        numbers(field) == seq![number_field(field, usize::MAX as nat)],
        numbers(field.push(32) + rest) == seq![number_field(field, usize::MAX as nat)] + numbers(
            rest,
        ),
{
    lemma_is_position(field, 32u8, field.len() as int);
    lemma_numbers_concat(field, rest);
}

/// A byte string occurs in another just if it stands between two parts of it.
pub proof fn law_occurrence_stands_between_two_parts(
    before: Seq<u8>,
    bytes: Seq<u8>,
    after: Seq<u8>,
)
    ensures
        occurs(bytes, before + bytes + after),
{
    let within = before + bytes + after;
    let i = before.len() as int;
    assert(within.subrange(i, i + bytes.len()) =~= bytes);
}

} // verus!
