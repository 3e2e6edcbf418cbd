//! The textual description of a ledger.
//!
//! A description is a text of lines. The first line is the number of
//! resource types, the second the number of processes, the third what is
//! free of each resource type. One line per process follows, in three parts
//! parted by `|`: the maximum of the process, what it holds, and a third part
//! that is not read. Amounts are decimal numbers parted by blanks. Lines
//! after the last process are not read.

use vstd::prelude::*;

verus! {

/// The byte that ends a line.
pub const LINE_FEED: u8 = 10;

/// The byte that may stand before the end of a line.
pub const CARRIAGE_RETURN: u8 = 13;

/// The first of the blanks that are control characters: the tab. The
/// carriage return is the last of them.
pub const TAB: u8 = 9;

/// The space.
pub const SPACE: u8 = 32;

/// The sign `+`.
pub const PLUS: u8 = 43;

/// The sign `-`.
pub const MINUS: u8 = 45;

/// The digit `0`.
pub const ZERO: u8 = 48;

/// The digit `9`.
pub const NINE: u8 = 57;

/// The byte `|` that parts the line of a process.
pub const BAR: u8 = 124;

/// Whether `byte` parts two amounts: a space, a tab, a line feed, a vertical
/// tab, a form feed or a carriage return.
pub open spec fn is_blank(byte: u8) -> bool {
    byte == SPACE || TAB <= byte <= CARRIAGE_RETURN
}

/// Whether `byte` is one of the digits `0` to `9`.
pub open spec fn is_digit(byte: u8) -> bool {
    ZERO <= byte <= NINE
}

/// The length of the longest start of `text` without the byte `mark`.
pub open spec fn length_before(text: Seq<u8>, mark: u8) -> nat
    decreases text.len(),
{
    if text.len() == 0 || text[0] == mark {
        0
    } else {
        1 + length_before(text.skip(1), mark)
    }
}

/// The length of the longest start of `text` without a blank.
pub open spec fn length_before_blank(text: Seq<u8>) -> nat
    decreases text.len(),
{
    if text.len() == 0 || is_blank(text[0]) {
        0
    } else {
        1 + length_before_blank(text.skip(1))
    }
}

/// What stands between the occurrences of `mark` in `text`: one piece more
/// than there are marks, some of them possibly empty.
pub open spec fn pieces(text: Seq<u8>, mark: u8) -> Seq<Seq<u8>>
    decreases text.len(),
{
    let n = length_before(text, mark);
    if n >= text.len() {
        seq![text]
    } else {
        seq![text.take(n as int)] + pieces(text.skip(n as int + 1), mark)
    }
}

/// `line` without the carriage return at its end, if it has one.
pub open spec fn without_return(line: Seq<u8>) -> Seq<u8> {
    if line.len() > 0 && line.last() == CARRIAGE_RETURN {
        line.drop_last()
    } else {
        line
    }
}

/// The lines of `text`. A line ends with a line feed; a carriage return
/// before it does not belong to the line. What follows the last line feed is
/// a line too, unless it is empty.
pub open spec fn lines(text: Seq<u8>) -> Seq<Seq<u8>> {
    let parts = pieces(text, LINE_FEED);
    let ended = Seq::new((parts.len() - 1) as nat, |i: int| without_return(parts[i]));
    if parts.last().len() == 0 {
        ended
    } else {
        ended.push(parts.last())
    }
}

/// A start without a blank is no longer than the text, and not empty where
/// the text begins with something other than a blank.
pub proof fn lemma_length_before_blank_bounds(text: Seq<u8>)
    ensures
        length_before_blank(text) <= text.len(),
        text.len() > 0 && !is_blank(text[0]) ==> length_before_blank(text) >= 1,
    decreases text.len(),
{
    if text.len() > 0 && !is_blank(text[0]) {
        lemma_length_before_blank_bounds(text.skip(1));
    }
}

/// The fields of `line`: its longest stretches without a blank, in order.
pub open spec fn fields(line: Seq<u8>) -> Seq<Seq<u8>>
    decreases line.len(),
{
    if line.len() == 0 {
        Seq::empty()
    } else if is_blank(line[0]) {
        fields(line.skip(1))
    } else {
        let n = length_before_blank(line);
        proof {
            lemma_length_before_blank_bounds(line);
        }
        seq![line.take(n as int)] + fields(line.skip(n as int))
    }
}

/// The number that the decimal digits `digits` write.
pub open spec fn digits_value(digits: Seq<u8>) -> nat
    decreases digits.len(),
{
    if digits.len() == 0 {
        0
    } else {
        (10 * digits_value(digits.drop_last()) + (digits.last() - ZERO)) as nat
    }
}

/// The number that `digits` writes, if it is one digit or more and nothing else.
pub open spec fn magnitude(digits: Seq<u8>) -> Option<nat> {
    if digits.len() > 0 && forall|i: int| 0 <= i < digits.len() ==> is_digit(#[trigger] digits[i]) {
        Some(digits_value(digits))
    } else {
        None
    }
}

/// The whole number that `field` writes: digits, with `+` or `-` before them or neither.
pub open spec fn number(field: Seq<u8>) -> Option<int> {
    if field.len() > 0 && field[0] == MINUS {
        match magnitude(field.skip(1)) {
            Some(n) => Some(-(n as int)),
            None => None,
        }
    } else if field.len() > 0 && field[0] == PLUS {
        match magnitude(field.skip(1)) {
            Some(n) => Some(n as int),
            None => None,
        }
    } else {
        match magnitude(field) {
            Some(n) => Some(n as int),
            None => None,
        }
    }
}

/// The amount that `field` writes: a whole number that an `i32` can hold.
pub open spec fn amount(field: Seq<u8>) -> Option<int> {
    match number(field) {
        Some(n) => if i32::MIN <= n <= i32::MAX {
            Some(n)
        } else {
            None
        },
        None => None,
    }
}

/// The count that `line` writes: digits, with `+` before them or not, that
/// write a number that a `usize` can hold. The line holds nothing else.
pub open spec fn count(line: Seq<u8>) -> Option<nat> {
    if line.len() > 0 && line[0] == MINUS {
        None
    } else {
        match number(line) {
            Some(n) => if n <= usize::MAX {
                Some(n as nat)
            } else {
                None
            },
            None => None,
        }
    }
}

/// The amounts that `line` writes, one per field, if every field writes one.
pub open spec fn amounts(line: Seq<u8>) -> Option<Seq<int>> {
    let found = fields(line);
    if forall|i: int| 0 <= i < found.len() ==> amount(#[trigger] found[i]) is Some {
        Some(Seq::new(found.len(), |i: int| amount(found[i]).unwrap()))
    } else {
        None
    }
}

/// The maximum and the holdings that the line of a process writes: the line
/// has three parts, parted by `|`, and the first two write amounts.
pub open spec fn process_row(line: Seq<u8>) -> Option<(Seq<int>, Seq<int>)> {
    let parts = pieces(line, BAR);
    if parts.len() == 3 && amounts(parts[0]) is Some && amounts(parts[1]) is Some {
        Some((amounts(parts[0]).unwrap(), amounts(parts[1]).unwrap()))
    } else {
        None
    }
}

/// What a text describes: what is free, and for each process its maximum and
/// what it holds.
pub struct Description {
    pub available: Seq<int>,
    pub max: Seq<Seq<int>>,
    pub allocated: Seq<Seq<int>>,
}

/// Whether `text` has the form of a description: the first two lines write
/// counts, the third writes as many amounts as the first line says, and as
/// many lines as the second line says follow and are lines of processes.
pub open spec fn is_description(text: Seq<u8>) -> bool {
    let all = lines(text);
    let rows = all.skip(3);
    &&& all.len() >= 3
    &&& count(all[0]) is Some
    &&& count(all[1]) is Some
    &&& amounts(all[2]) is Some
    &&& amounts(all[2]).unwrap().len() == count(all[0]).unwrap()
    &&& rows.len() >= count(all[1]).unwrap()
    &&& forall|p: int| 0 <= p < count(all[1]).unwrap() ==> process_row(#[trigger] rows[p]) is Some
}

/// What `text` describes, if it has the form of a description.
pub open spec fn described(text: Seq<u8>) -> Option<Description> {
    let all = lines(text);
    let rows = all.skip(3);
    if is_description(text) {
        Some(
            Description {
                available: amounts(all[2]).unwrap(),
                max: Seq::new(count(all[1]).unwrap(), |p: int| process_row(rows[p]).unwrap().0),
                allocated: Seq::new(
                    count(all[1]).unwrap(),
                    |p: int| process_row(rows[p]).unwrap().1,
                ),
            },
        )
    } else {
        None
    }
}

} // verus!
