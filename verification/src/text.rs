//! Bytes, decimal numbers and names: what every wire frame is made of.
use vstd::prelude::*;
use vstd::utf8::encode_utf8;
use vstd::utf8::encode_utf8_decode_utf8;

verus! {

/// The bytes of a text as they travel on the wire.
pub open spec fn text_bytes(text: Seq<char>) -> Seq<u8> {
    encode_utf8(text)
}

/// Two texts with the same bytes are the same text.
pub proof fn lemma_text_bytes_injective(a: Seq<char>, b: Seq<char>)
    requires
        text_bytes(a) == text_bytes(b),
    ensures
        a == b,
{
    encode_utf8_decode_utf8(a);
    encode_utf8_decode_utf8(b);
}

/// Whether two byte strings are the same.
pub fn same_bytes(a: &[u8], b: &[u8]) -> (same: bool)
    ensures
        same == (a@ == b@),
{
    if a.len() != b.len() {
        return false;
    }
    let mut index: usize = 0;
    while index < a.len()
        invariant
            a.len() == b.len(),
            index <= a.len(),
            forall|i: int| 0 <= i < index ==> a@[i] == b@[i],
        decreases a.len() - index,
    {
        if a[index] != b[index] {
            return false;
        }
        index += 1;
    }
    assert(a@ =~= b@);
    true
}

/// Whether two texts are the same.
pub fn same_text(a: &str, b: &str) -> (same: bool)
    ensures
        same == (a@ == b@),
{
    let same = same_bytes(a.as_bytes(), b.as_bytes());
    proof {
        if same {
            lemma_text_bytes_injective(a@, b@);
        }
    }
    same
}

/// Appends `tail` to `out`.
pub fn push_bytes(out: &mut Vec<u8>, tail: &[u8])
    ensures
        final(out)@ == old(out)@ + tail@,
{
    let mut index: usize = 0;
    while index < tail.len()
        invariant
            index <= tail.len(),
            out@ == old(out)@ + tail@.subrange(0, index as int),
        decreases tail.len() - index,
    {
        out.push(tail[index]);
        index += 1;
        assert(tail@.subrange(0, index as int) =~= tail@.subrange(0, index - 1).push(
            tail@[index - 1],
        ));
    }
    assert(tail@.subrange(0, tail@.len() as int) =~= tail@);
}

/// Appends the bytes of `tail` to `out`.
pub fn push_text(out: &mut Vec<u8>, tail: &str)
    ensures
        final(out)@ == old(out)@ + text_bytes(tail@),
{
    push_bytes(out, tail.as_bytes());
}

/// A copy of a byte string.
pub fn copy_bytes(source: &[u8]) -> (copy: Vec<u8>)
    ensures
        copy@ == source@,
{
    let mut copy: Vec<u8> = Vec::new();
    push_bytes(&mut copy, source);
    copy
}

/// Whether `a` sorts before `b`, comparing byte by byte.
pub open spec fn sorts_before(a: Seq<u8>, b: Seq<u8>) -> bool
    decreases a.len(),
{
    if b.len() == 0 {
        false
    } else if a.len() == 0 {
        true
    } else if a[0] != b[0] {
        a[0] < b[0]
    } else {
        sorts_before(a.drop_first(), b.drop_first())
    }
}

/// Nothing sorts before itself.
pub proof fn lemma_sorts_before_irreflexive(a: Seq<u8>)
    ensures
        !sorts_before(a, a),
    decreases a.len(),
{
    if a.len() > 0 {
        lemma_sorts_before_irreflexive(a.drop_first());
    }
}

pub proof fn lemma_sorts_before_transitive(a: Seq<u8>, b: Seq<u8>, c: Seq<u8>)
    requires
        sorts_before(a, b),
        sorts_before(b, c),
    ensures
        sorts_before(a, c),
    decreases a.len(),
{
    if a.len() > 0 && b.len() > 0 && c.len() > 0 && a[0] == b[0] && b[0] == c[0] {
        lemma_sorts_before_transitive(a.drop_first(), b.drop_first(), c.drop_first());
    }
}

/// Of two different byte strings one sorts before the other.
pub proof fn lemma_sorts_before_total(a: Seq<u8>, b: Seq<u8>)
    requires
        a != b,
    ensures
        sorts_before(a, b) || sorts_before(b, a),
    decreases a.len(),
{
    if a.len() == 0 {
        if b.len() == 0 {
            assert(a =~= b);
        }
    } else if b.len() > 0 && a[0] == b[0] {
        if a.drop_first() == b.drop_first() {
            assert(a =~= seq![a[0]] + a.drop_first());
            assert(b =~= seq![b[0]] + b.drop_first());
        }
        lemma_sorts_before_total(a.drop_first(), b.drop_first());
    }
}

/// Compares two byte strings.
pub fn bytes_sort_before(a: &[u8], b: &[u8]) -> (before: bool)
    ensures
        before == sorts_before(a@, b@),
{
    let mut index: usize = 0;
    assert(a@.subrange(0, a@.len() as int) =~= a@);
    assert(b@.subrange(0, b@.len() as int) =~= b@);
    while index < a.len() && index < b.len()
        invariant
            index <= a.len(),
            index <= b.len(),
            sorts_before(a@, b@) == sorts_before(
                a@.subrange(index as int, a@.len() as int),
                b@.subrange(index as int, b@.len() as int),
            ),
        decreases a.len() - index,
    {
        if a[index] != b[index] {
            return a[index] < b[index];
        }
        assert(a@.subrange(index as int, a@.len() as int).drop_first() =~= a@.subrange(
            index + 1,
            a@.len() as int,
        ));
        assert(b@.subrange(index as int, b@.len() as int).drop_first() =~= b@.subrange(
            index + 1,
            b@.len() as int,
        ));
        index += 1;
    }
    index < b.len()
}

/// The views of a list of texts.
pub open spec fn text_views(texts: Seq<String>) -> Seq<Seq<char>> {
    texts.map_values(|text: String| text@)
}

/// The views of a list of borrowed texts.
pub open spec fn str_views(texts: Seq<&str>) -> Seq<Seq<char>> {
    texts.map_values(|text: &str| text@)
}

/// Whether two lists hold the same texts, in whatever order and how often ever.
pub open spec fn same_members(a: Seq<Seq<char>>, b: Seq<Seq<char>>) -> bool {
    forall|text: Seq<char>| #[trigger] a.contains(text) <==> b.contains(text)
}

/// Whether every text sorts before those behind it; none then occurs twice.
pub open spec fn strictly_sorted(texts: Seq<Seq<char>>) -> bool {
    forall|i: int, j: int|
        0 <= i < j < texts.len() ==> #[trigger] sorts_before(
            text_bytes(texts[i]),
            text_bytes(texts[j]),
        )
}

/// A sorted list holds nothing twice.
pub proof fn lemma_sorted_has_no_duplicates(texts: Seq<Seq<char>>)
    requires
        strictly_sorted(texts),
    ensures
        texts.no_duplicates(),
{
    assert forall|i: int, j: int| 0 <= i < texts.len() && 0 <= j < texts.len() && i != j implies
        texts[i] != texts[j] by {
        if i < j {
            assert(sorts_before(text_bytes(texts[i]), text_bytes(texts[j])));
        } else {
            assert(sorts_before(text_bytes(texts[j]), text_bytes(texts[i])));
        }
        lemma_sorts_before_irreflexive(text_bytes(texts[i]));
    }
}

/// There is one sorted list of given texts: its members fix it.
pub proof fn law_sorted_list_is_fixed_by_its_members(a: Seq<Seq<char>>, b: Seq<Seq<char>>)
    requires
        strictly_sorted(a),
        strictly_sorted(b),
        same_members(a, b),
    ensures
        a == b,
    decreases a.len(),
{
    if a.len() == 0 {
        if b.len() > 0 {
            assert(b.contains(b[0]));
            assert(a.contains(b[0]));
        }
        assert(a =~= b);
    } else {
        assert(a.contains(a[0]));
        assert(b.contains(a[0]));
        assert(b.contains(b[0]));
        assert(a.contains(b[0]));
        let i = a.index_of(b[0]);
        let j = b.index_of(a[0]);
        if i > 0 && j > 0 {
            assert(sorts_before(text_bytes(a[0]), text_bytes(a[i])));
            assert(sorts_before(text_bytes(b[0]), text_bytes(b[j])));
            lemma_sorts_before_transitive(text_bytes(a[0]), text_bytes(b[0]), text_bytes(a[0]));
            lemma_sorts_before_irreflexive(text_bytes(a[0]));
        }
        let x = a.drop_first();
        let y = b.drop_first();
        lemma_sorted_has_no_duplicates(a);
        lemma_sorted_has_no_duplicates(b);
        assert forall|text: Seq<char>| #[trigger] x.contains(text) <==> y.contains(text) by {
            if x.contains(text) {
                let k = x.index_of(text);
                assert(a[k + 1] == text);
                assert(a.contains(text));
                assert(b.contains(text));
                let m = b.index_of(text);
                assert(y[m - 1] == text);
            }
            if y.contains(text) {
                let k = y.index_of(text);
                assert(b[k + 1] == text);
                assert(b.contains(text));
                assert(a.contains(text));
                let m = a.index_of(text);
                assert(x[m - 1] == text);
            }
        }
        assert forall|p: int, q: int| 0 <= p < q < x.len() implies #[trigger] sorts_before(
            text_bytes(x[p]),
            text_bytes(x[q]),
        ) by {
            assert(sorts_before(text_bytes(a[p + 1]), text_bytes(a[q + 1])));
        }
        assert forall|p: int, q: int| 0 <= p < q < y.len() implies #[trigger] sorts_before(
            text_bytes(y[p]),
            text_bytes(y[q]),
        ) by {
            assert(sorts_before(text_bytes(b[p + 1]), text_bytes(b[q + 1])));
        }
        law_sorted_list_is_fixed_by_its_members(x, y);
        assert(a =~= seq![a[0]] + x);
        assert(b =~= seq![b[0]] + y);
    }
}

/// Adds a text to a sorted list, unless it is in it.
fn insert_sorted(sorted: &mut Vec<String>, text: &String)
    requires
        strictly_sorted(text_views(old(sorted)@)),
    ensures
        strictly_sorted(text_views(final(sorted)@)),
        forall|other: Seq<char>| #[trigger]
            text_views(final(sorted)@).contains(other) <==> (text_views(old(sorted)@).contains(
                other,
            ) || other == text@),
{
    let ghost before = text_views(sorted@);
    let mut place: usize = 0;
    while place < sorted.len() && bytes_sort_before(
        sorted[place].as_str().as_bytes(),
        text.as_str().as_bytes(),
    )
        invariant
            place <= sorted.len(),
            before == text_views(sorted@),
            forall|i: int|
                0 <= i < place ==> sorts_before(
                    text_bytes(#[trigger] before[i]),
                    text_bytes(text@),
                ),
        decreases sorted.len() - place,
    {
        assert(before[place as int] == sorted@[place as int]@);
        place += 1;
    }
    if place < sorted.len() && same_text(sorted[place].as_str(), text.as_str()) {
        assert(before[place as int] == text@);
        return ;
    }
    proof {
        if place < before.len() {
            assert(before[place as int] == sorted@[place as int]@);
            lemma_sorts_before_total_texts(before[place as int], text@);
        }
    }
    sorted.insert(place, text.clone());
    let ghost after = text_views(sorted@);
    assert(after =~= before.insert(place as int, text@));
    assert forall|i: int, j: int| 0 <= i < j < after.len() implies #[trigger] sorts_before(
        text_bytes(after[i]),
        text_bytes(after[j]),
    ) by {
        let p = place as int;
        if j < p {
            assert(sorts_before(text_bytes(before[i]), text_bytes(before[j])));
        } else if j == p {
            assert(after[i] == before[i]);
        } else if i < p {
            assert(sorts_before(text_bytes(before[i]), text_bytes(before[j - 1])));
        } else if i == p {
            if j - 1 > p {
                assert(sorts_before(text_bytes(before[p]), text_bytes(before[j - 1])));
                lemma_sorts_before_transitive(
                    text_bytes(text@),
                    text_bytes(before[p]),
                    text_bytes(before[j - 1]),
                );
            }
        } else {
            assert(sorts_before(text_bytes(before[i - 1]), text_bytes(before[j - 1])));
        }
    }
    assert forall|other: Seq<char>| #[trigger] after.contains(other) <==> (before.contains(other)
        || other == text@) by {
        let p = place as int;
        if before.contains(other) {
            let i = before.index_of(other);
            if i < p {
                assert(after[i] == other);
            } else {
                assert(after[i + 1] == other);
            }
        }
        if other == text@ {
            assert(after[p] == other);
        }
        if after.contains(other) {
            let i = after.index_of(other);
            if i < p {
                assert(before[i] == other);
            } else if i > p {
                assert(before[i - 1] == other);
            }
        }
    }
}

proof fn lemma_sorts_before_total_texts(a: Seq<char>, b: Seq<char>)
    requires
        a != b,
    ensures
        sorts_before(text_bytes(a), text_bytes(b)) || sorts_before(text_bytes(b), text_bytes(a)),
{
    if text_bytes(a) == text_bytes(b) {
        lemma_text_bytes_injective(a, b);
    }
    lemma_sorts_before_total(text_bytes(a), text_bytes(b));
}

/// The texts of a list in order, each once.
pub fn sorted_texts(texts: &Vec<String>) -> (sorted: Vec<String>)
    ensures
        strictly_sorted(text_views(sorted@)),
        same_members(text_views(sorted@), text_views(texts@)),
{
    let mut sorted: Vec<String> = Vec::new();
    let mut index: usize = 0;
    while index < texts.len()
        invariant
            index <= texts.len(),
            strictly_sorted(text_views(sorted@)),
            same_members(text_views(sorted@), text_views(texts@).take(index as int)),
        decreases texts.len() - index,
    {
        let ghost before = text_views(sorted@);
        let ghost seen = text_views(texts@).take(index as int);
        let ghost more = text_views(texts@).take(index + 1);
        insert_sorted(&mut sorted, &texts[index]);
        assert forall|text: Seq<char>| #[trigger]
            text_views(sorted@).contains(text) <==> more.contains(text) by {
            assert(more =~= seen.push(texts@[index as int]@));
            assert(before.contains(text) <==> seen.contains(text));
            if seen.contains(text) {
                assert(more[seen.index_of(text)] == text);
            }
            if text == texts@[index as int]@ {
                assert(more[index as int] == text);
            }
            if more.contains(text) {
                let i = more.index_of(text);
                if i < index {
                    assert(seen[i] == text);
                }
            }
        }
        index += 1;
    }
    assert(text_views(texts@).take(texts@.len() as int) =~= text_views(texts@));
    sorted
}

/// Whether a list of texts holds `text`.
pub fn contains_text(texts: &Vec<String>, text: &str) -> (found: bool)
    ensures
        found == text_views(texts@).contains(text@),
{
    let mut index: usize = 0;
    while index < texts.len()
        invariant
            index <= texts.len(),
            forall|i: int| 0 <= i < index ==> (#[trigger] texts@[i])@ != text@,
        decreases texts.len() - index,
    {
        if same_text(texts[index].as_str(), text) {
            assert(text_views(texts@)[index as int] == text@);
            return true;
        }
        index += 1;
    }
    assert(!text_views(texts@).contains(text@)) by {
        if text_views(texts@).contains(text@) {
            let i = text_views(texts@).index_of(text@);
            assert(texts@[i]@ == text@);
        }
    }
    false
}

/// Whether a list of borrowed texts holds `text`.
pub fn contains_str(texts: &Vec<&str>, text: &str) -> (found: bool)
    ensures
        found == str_views(texts@).contains(text@),
{
    let mut index: usize = 0;
    while index < texts.len()
        invariant
            index <= texts.len(),
            forall|i: int| 0 <= i < index ==> (#[trigger] texts@[i])@ != text@,
        decreases texts.len() - index,
    {
        if same_text(texts[index], text) {
            assert(str_views(texts@)[index as int] == text@);
            return true;
        }
        index += 1;
    }
    assert(!str_views(texts@).contains(text@)) by {
        if str_views(texts@).contains(text@) {
            let i = str_views(texts@).index_of(text@);
            assert(texts@[i]@ == text@);
        }
    }
    false
}

/// A copy of a list of texts.
pub fn copy_texts(texts: &Vec<String>) -> (copy: Vec<String>)
    ensures
        copy@ == texts@,
{
    let mut copy: Vec<String> = Vec::new();
    let mut index: usize = 0;
    while index < texts.len()
        invariant
            index <= texts.len(),
            copy@ == texts@.subrange(0, index as int),
        decreases texts.len() - index,
    {
        copy.push(texts[index].clone());
        index += 1;
        assert(copy@ =~= texts@.subrange(0, index as int));
    }
    assert(texts@.subrange(0, texts@.len() as int) =~= texts@);
    copy
}

/// The decimal digits of a number, most significant first, without a sign or
/// leading zeros.
pub open spec fn decimal(n: nat) -> Seq<u8>
    decreases n,
{
    if n < 10 {
        seq![(48 + n) as u8]
    } else {
        decimal(n / 10).push((48 + n % 10) as u8)
    }
}

pub open spec fn is_digit(byte: u8) -> bool {
    48 <= byte <= 57
}

/// The number that a run of digits stands for.
pub open spec fn digits_value(digits: Seq<u8>) -> nat
    decreases digits.len(),
{
    if digits.len() == 0 {
        0
    } else {
        digits_value(digits.drop_last()) * 10 + (digits.last() - 48) as nat
    }
}

pub open spec fn all_digits(bytes: Seq<u8>) -> bool {
    forall|i: int| 0 <= i < bytes.len() ==> is_digit(#[trigger] bytes[i])
}

/// Reading the digits of a number gives that number back.
pub proof fn lemma_decimal_round_trip(n: nat)
    ensures
        all_digits(decimal(n)),
        decimal(n).len() > 0,
        digits_value(decimal(n)) == n,
    decreases n,
{
    if n < 10 {
        let s = decimal(n);
        assert(s.drop_last() =~= Seq::<u8>::empty());
        assert(s.last() == (48 + n) as u8);
        assert(digits_value(s.drop_last()) == 0);
    } else {
        lemma_decimal_round_trip(n / 10);
        let s = decimal(n);
        assert(s.drop_last() =~= decimal(n / 10));
        assert(s.last() == (48 + n % 10) as u8);
    }
}

/// Different numbers have different digits.
pub proof fn lemma_decimal_injective(a: nat, b: nat)
    requires
        decimal(a) == decimal(b),
    ensures
        a == b,
{
    lemma_decimal_round_trip(a);
    lemma_decimal_round_trip(b);
}

/// Appends the digits of `n` to `out`.
pub fn push_decimal(out: &mut Vec<u8>, n: u128)
    ensures
        final(out)@ == old(out)@ + decimal(n as nat),
    decreases n,
{
    if n < 10 {
        out.push(48 + (n as u8));
        assert(out@ =~= old(out)@ + decimal(n as nat));
    } else {
        push_decimal(out, n / 10);
        out.push(48 + ((n % 10) as u8));
        assert(out@ =~= old(out)@ + decimal(n as nat));
    }
}

/// What a number field of a frame stands for, if it is one and is at most
/// `max`: digits, with any number of leading zeros and at most one plus sign
/// before them.
pub open spec fn number_field(field: Seq<u8>, max: nat) -> Option<nat> {
    let digits = if field.len() > 0 && field[0] == 43 {
        field.subrange(1, field.len() as int)
    } else {
        field
    };
    if digits.len() > 0 && all_digits(digits) && digits_value(digits) <= max {
        Some(digits_value(digits))
    } else {
        None
    }
}

proof fn lemma_digits_value_monotone(digits: Seq<u8>, upto: int)
    requires
        0 <= upto <= digits.len(),
        all_digits(digits),
    ensures
        digits_value(digits.subrange(0, upto)) <= digits_value(digits),
    decreases digits.len(),
{
    if upto == digits.len() {
        assert(digits.subrange(0, upto) =~= digits);
    } else {
        lemma_digits_value_monotone(digits.drop_last(), upto);
        assert(digits.drop_last().subrange(0, upto) =~= digits.subrange(0, upto));
    }
}

/// Reads a number field.
pub fn parse_number(field: &[u8], max: u64) -> (value: Option<u64>)
    ensures
        match value {
            Some(n) => number_field(field@, max as nat) == Some(n as nat),
            None => number_field(field@, max as nat) is None,
        },
{
    let start: usize = if field.len() > 0 && field[0] == 43 {
        1
    } else {
        0
    };
    let ghost digits = field@.subrange(start as int, field@.len() as int);
    assert(start == 0 ==> digits =~= field@);
    if start >= field.len() {
        return None;
    }
    let mut value: u64 = 0;
    let mut index: usize = start;
    while index < field.len()
        invariant
            start <= index <= field.len(),
            digits == field@.subrange(start as int, field@.len() as int),
            forall|i: int| 0 <= i < index - start ==> is_digit(#[trigger] digits[i]),
            value == digits_value(digits.subrange(0, index - start)),
            value <= max,
            number_field(field@, max as nat) == (if digits.len() > 0 && all_digits(digits)
                && digits_value(digits) <= max {
                Some(digits_value(digits))
            } else {
                None
            }),
        decreases field.len() - index,
    {
        let byte: u8 = field[index];
        assert(digits[index - start] == byte);
        if byte < 48 || byte > 57 {
            assert(!all_digits(digits));
            return None;
        }
        let digit: u64 = (byte - 48) as u64;
        assert(digits.subrange(0, index + 1 - start).drop_last() =~= digits.subrange(
            0,
            index - start,
        ));
        assert(digits_value(digits.subrange(0, index + 1 - start)) == value * 10 + digit);
        proof {
            if all_digits(digits) {
                lemma_digits_value_monotone(digits, index + 1 - start);
            }
        }
        if digit > max || value > (max - digit) / 10 {
            return None;
        }
        value = value * 10 + digit;
        index += 1;
    }
    assert(digits.subrange(0, field.len() - start) =~= digits);
    Some(value)
}

/// The digits of a number are a field that reads back as that number.
pub proof fn lemma_number_field_of_decimal(n: nat, max: nat)
    requires
        n <= max,
    ensures
        number_field(decimal(n), max) == Some(n),
{
    lemma_decimal_round_trip(n);
    assert(is_digit(decimal(n)[0]));
}

/// Byte strings are in the order of a dictionary: of two, the one that is the
/// beginning of the other comes first, and else the one with the smaller byte at
/// the first place where they differ.
pub proof fn law_byte_strings_sort_like_words(a: Seq<u8>, b: Seq<u8>, place: int)
    requires
        0 <= place <= a.len(),
        place <= b.len(),
        forall|i: int| 0 <= i < place ==> #[trigger] a[i] == b[i],
    ensures
        place == a.len() ==> (sorts_before(a, b) <==> a.len() < b.len()),
        place == b.len() ==> !sorts_before(a, b),
        place < a.len() && place < b.len() && a[place] != b[place] ==> (sorts_before(a, b)
            <==> a[place] < b[place]),
    decreases place,
{
    if place > 0 {
        assert(a[0] == b[0]);
        let x = a.drop_first();
        let y = b.drop_first();
        assert forall|i: int| 0 <= i < place - 1 implies #[trigger] x[i] == y[i] by {
            assert(a[i + 1] == b[i + 1]);
        }
        law_byte_strings_sort_like_words(x, y, place - 1);
    }
}

/// A number field is read digit by digit, to base ten; a plus sign before it
/// makes no difference, and anything that is no digit makes it none, as does a
/// value over the limit.
pub proof fn law_number_fields_are_decimal(digits: Seq<u8>, digit: u8, field: Seq<u8>, max: nat)
    ensures
        digits_value(Seq::empty()) == 0,
        is_digit(digit) ==> digits_value(digits.push(digit)) == 10 * digits_value(digits) + (digit
            - 48),
        number_field(field, max) matches Some(n) ==> n <= max,
        field.len() == 0 ==> number_field(field, max) is None,
        (field.len() > 0 && field[0] != 43 ==> number_field(seq![43u8] + field, max)
            == number_field(field, max)),
        (field.len() > 0 && field[0] != 43 && (exists|i: int|
            0 <= i < field.len() && !(48 <= #[trigger] field[i] <= 57))) ==> number_field(
            field,
            max,
        ) is None,
        (field.len() > 0 && (forall|i: int|
            0 <= i < field.len() ==> 48 <= #[trigger] field[i] <= 57) && digits_value(field) <= max)
            ==> number_field(field, max) == Some(digits_value(field)),
{
    assert(digits.push(digit).drop_last() =~= digits);
    if field.len() > 0 && field[0] != 43 {
        let signed = seq![43u8] + field;
        assert(signed.subrange(1, signed.len() as int) =~= field);
        if exists|i: int| 0 <= i < field.len() && !(48 <= #[trigger] field[i] <= 57) {
            let i = choose|i: int| 0 <= i < field.len() && !(48 <= #[trigger] field[i] <= 57);
            assert(!is_digit(field[i]));
        }
    }
    if field.len() > 0 && (forall|i: int|
        0 <= i < field.len() ==> 48 <= #[trigger] field[i] <= 57) {
        assert(48 <= field[0] <= 57);
        assert(all_digits(field));
    }
}

/// Lists of texts are viewed text by text, in order.
pub proof fn law_texts_are_viewed_in_order(texts: Seq<String>, strs: Seq<&str>, index: int)
    ensures
        text_views(texts).len() == texts.len(),
        str_views(strs).len() == strs.len(),
        0 <= index < texts.len() ==> text_views(texts)[index] == texts[index]@,
        0 <= index < strs.len() ==> str_views(strs)[index] == strs[index]@,
{
}

} // verus!
