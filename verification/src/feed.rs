//! The feed: the lines of whole numbers in which a turn is reported. A line
//! holds fields parted by single spaces; a field is a whole number, written
//! in decimal digits with or without a sign, with or without white space
//! around it.

use crate::entities::{Entity, Human, Zombie, ZombieView};
use crate::geometry::Position;
use vstd::prelude::*;

verus! {

/// White space: the space, and the controls from the tab to the carriage
/// return.
pub open spec fn is_blank(byte: u8) -> bool {
    byte == 0x20 || 0x09 <= byte <= 0x0d
}

/// One of `0` to `9`.
pub open spec fn is_digit(byte: u8) -> bool {
    0x30 <= byte <= 0x39
}

/// Every byte of `text` is a digit.
pub open spec fn all_digits(text: Seq<u8>) -> bool {
    forall|i: int| 0 <= i < text.len() ==> is_digit(#[trigger] text[i])
}

/// The number that the digits write, most significant first.
pub open spec fn digits_value(digits: Seq<u8>) -> nat
    decreases digits.len(),
{
    if digits.len() == 0 {
        0
    } else {
        10 * digits_value(digits.drop_last()) + (digits.last() - 0x30) as nat
    }
}

/// The digits of `text`: what follows its sign, or all of it.
pub open spec fn unsigned_part(text: Seq<u8>) -> Seq<u8> {
    if text.len() > 0 && (text[0] == 0x2d || text[0] == 0x2b) {
        text.drop_first()
    } else {
        text
    }
}

/// The number that `text` writes: a `-` or a `+` or neither, then one digit
/// at least and digits only, the whole within the 32 bits of a coordinate.
/// Anything else writes no number.
pub open spec fn number(text: Seq<u8>) -> Option<i32> {
    let digits = unsigned_part(text);
    let size = digits_value(digits) as int;
    let value = if text.len() > 0 && text[0] == 0x2d {
        -size
    } else {
        size
    };
    if digits.len() > 0 && all_digits(digits) && i32::MIN <= value <= i32::MAX {
        Some(value as i32)
    } else {
        None
    }
}

/// More digits never write a smaller number.
proof fn lemma_digits_value_grows(digits: Seq<u8>, shorter: int)
    requires
        0 <= shorter <= digits.len(),
    ensures
        digits_value(digits.take(shorter)) <= digits_value(digits),
    decreases digits.len(),
{
    if shorter < digits.len() {
        assert(digits.drop_last().take(shorter) == digits.take(shorter));
        lemma_digits_value_grows(digits.drop_last(), shorter);
    } else {
        assert(digits.take(shorter) == digits);
    }
}

/// Reads the number that the bytes of `line` from `from` up to `to` write.
pub fn read_number(line: &[u8], from: usize, to: usize) -> (value: Option<i32>)
    requires
        from <= to <= line@.len(),
    ensures
        value == number(line@.subrange(from as int, to as int)),
{
    let ghost text = line@.subrange(from as int, to as int);
    let mut at: usize = from;
    let mut negative = false;
    if at < to && (line[at] == 0x2d || line[at] == 0x2b) {
        negative = line[at] == 0x2d;
        at += 1;
    }
    let ghost digits = line@.subrange(at as int, to as int);
    assert(digits == unsigned_part(text)) by {
        assert(text.len() > 0 ==> text[0] == line@[from as int]);
    }
    assert(negative <==> text.len() > 0 && text[0] == 0x2d);
    if at == to {
        return None;
    }
    let first: usize = at;
    let mut size: i64 = 0;
    assert(digits.take(0) == Seq::<u8>::empty());
    while at < to
        invariant
            from <= first <= at <= to <= line@.len(),
            text == line@.subrange(from as int, to as int),
            digits == unsigned_part(text),
            digits == line@.subrange(first as int, to as int),
            all_digits(digits.take(at - first)),
            size == digits_value(digits.take(at - first)),
            size <= 0x8000_0000,
        decreases to - at,
    {
        let byte = line[at];
        proof {
            let longer = digits.take(at - first + 1);
            assert(longer.drop_last() == digits.take(at - first));
            assert(longer.last() == byte);
            assert(digits[at - first] == byte);
            lemma_digits_value_grows(digits, at - first + 1);
        }
        if byte < 0x30 || byte > 0x39 {
            return None;
        }
        size = size * 10 + (byte - 0x30) as i64;
        if size > 0x8000_0000 {
            return None;
        }
        at += 1;
    }
    assert(digits.take(at - first) == digits);
    if negative {
        Some((-size) as i32)
    } else if size > 0x7fff_ffff {
        None
    } else {
        Some(size as i32)
    }
}

/// `text` without the white space at its two ends.
pub open spec fn trimmed(text: Seq<u8>) -> Seq<u8>
    decreases text.len(),
{
    if text.len() > 0 && is_blank(text[0]) {
        trimmed(text.drop_first())
    } else if text.len() > 0 && is_blank(text.last()) {
        trimmed(text.drop_last())
    } else {
        text
    }
}

/// What is left of a text between the white space at its head and the
/// white space at its tail is the trimmed text.
proof fn lemma_trimmed(text: Seq<u8>, start: int, end: int)
    requires
        0 <= start <= end <= text.len(),
        forall|i: int| 0 <= i < start ==> is_blank(#[trigger] text[i]),
        forall|i: int| end <= i < text.len() ==> is_blank(#[trigger] text[i]),
        start < end ==> !is_blank(text[start]) && !is_blank(text[end - 1]),
    ensures
        trimmed(text) == text.subrange(start, end),
    decreases text.len(),
{
    if text.len() > 0 && is_blank(text[0]) {
        let rest = text.drop_first();
        if start == 0 {
            lemma_trimmed(rest, 0, 0);
        } else {
            lemma_trimmed(rest, start - 1, end - 1);
            assert(rest.subrange(start - 1, end - 1) == text.subrange(start, end));
        }
    } else if text.len() > 0 && is_blank(text.last()) {
        let rest = text.drop_last();
        assert(start == 0) by {
            if start > 0 {
                assert(is_blank(text[0]));
            }
        }
        assert(end < text.len()) by {
            if end == text.len() {
                assert(is_blank(text[end - 1]));
            }
        }
        lemma_trimmed(rest, start, end);
        assert(rest.subrange(start, end) == text.subrange(start, end));
    } else if text.len() > 0 {
        assert(start == 0) by {
            if start > 0 {
                assert(is_blank(text[0]));
            }
        }
        assert(end == text.len()) by {
            if end < text.len() {
                assert(is_blank(text[text.len() - 1]));
            }
        }
        assert(text.subrange(0, text.len() as int) == text);
    } else {
        assert(text.subrange(0, 0) == text);
    }
}

/// Whether `byte` is white space.
fn blank(byte: u8) -> (yes: bool)
    ensures
        yes == is_blank(byte),
{
    byte == 0x20 || (0x09 <= byte && byte <= 0x0d)
}

/// Finds in the bytes of `line` from `from` up to `to` where the text
/// starts and ends once the white space at its two ends is left out.
pub fn trim(line: &[u8], from: usize, to: usize) -> (bounds: (usize, usize))
    requires
        from <= to <= line@.len(),
    ensures
        from <= bounds.0 <= bounds.1 <= to,
        line@.subrange(bounds.0 as int, bounds.1 as int) == trimmed(
            line@.subrange(from as int, to as int),
        ),
{
    let mut start: usize = from;
    while start < to && blank(line[start])
        invariant
            from <= start <= to <= line@.len(),
            forall|i: int| from <= i < start ==> is_blank(#[trigger] line@[i]),
        decreases to - start,
    {
        start += 1;
    }
    let mut end: usize = to;
    while start < end && blank(line[end - 1])
        invariant
            from <= start <= end <= to <= line@.len(),
            forall|i: int| end <= i < to ==> is_blank(#[trigger] line@[i]),
        decreases end - start,
    {
        end -= 1;
    }
    proof {
        let text = line@.subrange(from as int, to as int);
        assert forall|i: int| 0 <= i < start - from implies is_blank(#[trigger] text[i]) by {
            assert(is_blank(line@[from + i]));
        }
        assert forall|i: int| end - from <= i < text.len() implies is_blank(
            #[trigger] text[i],
        ) by {
            assert(is_blank(line@[from + i]));
        }
        lemma_trimmed(text, start - from, end - from);
        assert(text.subrange(start - from, end - from) == line@.subrange(
            start as int,
            end as int,
        ));
    }
    (start, end)
}

/// How long the first field of `line` is: how many bytes stand in front of
/// its first space, or in all of it when it has no space.
pub open spec fn first_field_len(line: Seq<u8>) -> int
    decreases line.len(),
{
    if line.len() == 0 || line[0] == 0x20 {
        0
    } else {
        1 + first_field_len(line.drop_first())
    }
}

/// The first field ends at the first space, or with the line.
proof fn lemma_first_field_len(line: Seq<u8>, end: int)
    requires
        0 <= end <= line.len(),
        forall|i: int| 0 <= i < end ==> #[trigger] line[i] != 0x20,
        end < line.len() ==> line[end] == 0x20,
    ensures
        first_field_len(line) == end,
    decreases line.len(),
{
    if end > 0 {
        let rest = line.drop_first();
        assert(line[0] != 0x20);
        assert forall|i: int| 0 <= i < end - 1 implies #[trigger] rest[i] != 0x20 by {
            assert(line[i + 1] != 0x20);
        }
        lemma_first_field_len(rest, end - 1);
    }
}

/// The numbers that the first `wanted` fields of `line` write, in their
/// order. The fields are parted by single spaces; white space around a
/// number is passed over; what follows the last wanted field is not read.
/// There are no such numbers where the line has fewer fields or one of them
/// writes no number.
pub open spec fn leading_numbers(line: Seq<u8>, wanted: nat) -> Option<Seq<i32>>
    decreases wanted,
{
    if wanted == 0 {
        Some(Seq::empty())
    } else {
        let end = first_field_len(line);
        match number(trimmed(line.take(end))) {
            None => None,
            Some(value) => if wanted == 1 {
                Some(seq![value])
            } else if end == line.len() {
                None
            } else {
                match leading_numbers(line.skip(end + 1), (wanted - 1) as nat) {
                    None => None,
                    Some(rest) => Some(seq![value] + rest),
                }
            },
        }
    }
}

/// Reads the numbers that the first `wanted` fields of `line` write.
pub fn read_numbers(line: &[u8], wanted: usize) -> (values: Option<Vec<i32>>)
    ensures
        match values {
            Some(list) => list@.len() == wanted && leading_numbers(line@, wanted as nat) == Some(
                list@,
            ),
            None => leading_numbers(line@, wanted as nat) is None,
        },
{
    let mut values: Vec<i32> = Vec::new();
    let mut start: usize = 0;
    assert(line@.skip(0) == line@);
    while values.len() < wanted
        invariant
            values@.len() <= wanted,
            start <= line@.len(),
            leading_numbers(line@, wanted as nat) == match leading_numbers(
                line@.skip(start as int),
                (wanted - values@.len()) as nat,
            ) {
                Some(rest) => Some(values@ + rest),
                None => None,
            },
        decreases wanted - values@.len(),
    {
        let ghost rest_of_line = line@.skip(start as int);
        let mut end: usize = start;
        while end < line.len() && line[end] != 0x20
            invariant
                start <= end <= line@.len(),
                forall|i: int| start <= i < end ==> #[trigger] line@[i] != 0x20,
            decreases line@.len() - end,
        {
            end += 1;
        }
        proof {
            assert forall|i: int| 0 <= i < end - start implies #[trigger] rest_of_line[i]
                != 0x20 by {
                assert(line@[start + i] != 0x20);
            }
            lemma_first_field_len(rest_of_line, end - start);
            assert(rest_of_line.take(end - start) == line@.subrange(start as int, end as int));
        }
        let (from, to) = trim(line, start, end);
        match read_number(line, from, to) {
            None => {
                return None;
            },
            Some(value) => {
                let ghost before = values@;
                values.push(value);
                if values.len() < wanted {
                    if end == line.len() {
                        return None;
                    }
                    proof {
                        assert(rest_of_line.skip(end - start + 1) == line@.skip(end + 1));
                        let rest = leading_numbers(
                            line@.skip(end + 1),
                            (wanted - values@.len()) as nat,
                        );
                        if rest is Some {
                            assert(before + (seq![value] + rest.unwrap()) == values@
                                + rest.unwrap());
                        }
                    }
                    start = end + 1;
                } else {
                    proof {
                        assert(before + seq![value] == values@);
                        assert(values@ + Seq::<i32>::empty() == values@);
                    }
                }
            },
        }
    }
    assert(values@ + Seq::<i32>::empty() == values@);
    Some(values)
}

/// The point that `line` reports: `x y`.
pub open spec fn position_in(line: Seq<u8>) -> Option<Position> {
    match leading_numbers(line, 2) {
        Some(fields) => Some(Position(fields[0], fields[1])),
        None => None,
    }
}

/// The human that `line` reports: `id x y`.
pub open spec fn human_in(line: Seq<u8>) -> Option<Human> {
    match leading_numbers(line, 3) {
        Some(fields) => Some(
            Human {
                entity: Entity {
                    id: fields[0],
                    position: Position(fields[1], fields[2]),
                },
                zombies_facing_human: 0,
            },
        ),
        None => None,
    }
}

/// The zombie that `line` reports: `id x y next_x next_y`.
pub open spec fn zombie_in(line: Seq<u8>) -> Option<ZombieView> {
    match leading_numbers(line, 5) {
        Some(fields) => Some(
            ZombieView {
                entity: Entity {
                    id: fields[0],
                    position: Position(fields[1], fields[2]),
                },
                position_next: Position(fields[3], fields[4]),
                distance_to_character: None,
                distances_to_humans: None,
            },
        ),
        None => None,
    }
}

/// The count that `line` reports: one number and nothing else, not below
/// zero.
pub open spec fn count_in(line: Seq<u8>) -> Option<usize> {
    match number(trimmed(line)) {
        Some(count) => if count >= 0 {
            Some(count as usize)
        } else {
            None
        },
        None => None,
    }
}

/// Reads the line that reports where the character stands.
pub fn read_position(line: &[u8]) -> (position: Option<Position>)
    ensures
        position == position_in(line@),
{
    match read_numbers(line, 2) {
        Some(fields) => Some(Position(fields[0], fields[1])),
        None => None,
    }
}

/// Reads a line that reports how many humans or zombies follow.
pub fn read_count(line: &[u8]) -> (count: Option<usize>)
    ensures
        count == count_in(line@),
{
    assert(line@.subrange(0, line@.len() as int) == line@);
    let (from, to) = trim(line, 0, line.len());
    match read_number(line, from, to) {
        Some(count) => if count >= 0 {
            Some(count as usize)
        } else {
            None
        },
        None => None,
    }
}

/// Reads a line that reports a human.
pub fn read_human(line: &[u8]) -> (human: Option<Human>)
    ensures
        human == human_in(line@),
{
    match read_numbers(line, 3) {
        Some(fields) => Some(Human::new(fields[0], fields[1], fields[2])),
        None => None,
    }
}

/// Reads a line that reports a zombie.
pub fn read_zombie(line: &[u8]) -> (zombie: Option<Zombie>)
    ensures
        match zombie {
            Some(zombie) => zombie_in(line@) == Some(zombie@),
            None => zombie_in(line@) is None,
        },
{
    match read_numbers(line, 5) {
        Some(fields) => Some(Zombie::new(fields[0], fields[1], fields[2], fields[3], fields[4])),
        None => None,
    }
}

} // verus!
