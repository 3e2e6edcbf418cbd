//! Reading the textual description of a ledger.

use crate::description::{
    amount, amounts, count, described, digits_value, fields, is_blank, is_description, is_digit,
    length_before, length_before_blank, lines, magnitude, pieces, process_row, without_return,
    BAR, CARRIAGE_RETURN, LINE_FEED, MINUS, NINE, PLUS, SPACE, TAB, ZERO,
};
use crate::ledger::{ints, int_rows, MalformedInput, SystemState};
use crate::model::{initial_ledger, is_valid_description};
use vstd::prelude::*;

verus! {

/// The byte sequences that the slices of `parts` hold.
pub open spec fn contents(parts: Seq<&[u8]>) -> Seq<Seq<u8>> {
    Seq::new(parts.len(), |i: int| parts[i]@)
}

/// The place of the first `mark` is the length of the start without it.
proof fn lemma_length_before(text: Seq<u8>, mark: u8, n: int)
    requires
        0 <= n <= text.len(),
        forall|j: int| 0 <= j < n ==> text[j] != mark,
        n == text.len() || text[n] == mark,
    ensures
        length_before(text, mark) == n,
    decreases n,
{
    if n > 0 {
        let rest = text.skip(1);
        lemma_length_before(rest, mark, n - 1);
    }
}

/// The place of the first blank is the length of the start without one.
proof fn lemma_length_before_blank(text: Seq<u8>, n: int)
    requires
        0 <= n <= text.len(),
        forall|j: int| 0 <= j < n ==> !is_blank(text[j]),
        n == text.len() || is_blank(text[n]),
    ensures
        length_before_blank(text) == n,
    decreases n,
{
    if n > 0 {
        let rest = text.skip(1);
        lemma_length_before_blank(rest, n - 1);
    }
}

/// Where `mark` first stands in `text`, or the length of `text` if it does not.
fn find_mark(text: &[u8], mark: u8) -> (at: usize)
    ensures
        at == length_before(text@, mark),
        at <= text.len(),
{
    let mut at: usize = 0;
    while at < text.len() && text[at] != mark
        invariant
            at <= text.len(),
            forall|j: int| 0 <= j < at ==> text[j] != mark,
        decreases text.len() - at,
    {
        at += 1;
    }
    proof {
        lemma_length_before(text@, mark, at as int);
    }
    at
}

/// Where the first blank stands in `text`, or the length of `text` if it has none.
fn find_blank(text: &[u8]) -> (at: usize)
    ensures
        at == length_before_blank(text@),
        at <= text.len(),
{
    let mut at: usize = 0;
    while at < text.len() && !blank(text[at])
        invariant
            at <= text.len(),
            forall|j: int| 0 <= j < at ==> !is_blank(text[j]),
        decreases text.len() - at,
    {
        at += 1;
    }
    proof {
        lemma_length_before_blank(text@, at as int);
    }
    at
}

/// Whether `byte` parts two amounts.
fn blank(byte: u8) -> (yes: bool)
    ensures
        yes == is_blank(byte),
{
    byte == SPACE || (TAB <= byte && byte <= CARRIAGE_RETURN)
}

/// Cuts `text` at every `mark`.
fn split_at_mark<'a>(text: &'a [u8], mark: u8) -> (parts: Vec<&'a [u8]>)
    ensures
        contents(parts@) == pieces(text@, mark),
{
    let mut parts: Vec<&'a [u8]> = Vec::new();
    let mut from: usize = 0;
    proof {
        assert(text@.skip(0) =~= text@);
    }
    loop
        invariant_except_break
            from <= text.len(),
            pieces(text@, mark) == contents(parts@) + pieces(text@.skip(from as int), mark),
        ensures
            contents(parts@) == pieces(text@, mark),
        decreases text.len() - from,
    {
        let rest = &text[from..text.len()];
        let n = find_mark(rest, mark);
        if n >= rest.len() {
            parts.push(rest);
            break ;
        }
        let part = &rest[0..n];
        parts.push(part);
        proof {
            assert(rest@.skip(n as int + 1) =~= text@.skip(from + n + 1));
        }
        from = from + n + 1;
    }
    parts
}

/// `line` without the carriage return at its end, if it has one.
fn strip_return<'a>(line: &'a [u8]) -> (rest: &'a [u8])
    ensures
        rest@ == without_return(line@),
{
    if line.len() > 0 && line[line.len() - 1] == CARRIAGE_RETURN {
        let rest = &line[0..line.len() - 1];
        rest
    } else {
        line
    }
}

/// Cuts `text` into its lines.
fn split_lines<'a>(text: &'a [u8]) -> (found: Vec<&'a [u8]>)
    ensures
        contents(found@) == lines(text@),
{
    let parts = split_at_mark(text, LINE_FEED);
    assert(pieces(text@, LINE_FEED).len() >= 1);
    let last = parts.len() - 1;
    let mut found: Vec<&'a [u8]> = Vec::new();
    let mut i: usize = 0;
    while i < last
        invariant
            i <= last,
            last == parts.len() - 1,
            contents(parts@) == pieces(text@, LINE_FEED),
            found.len() == i,
            forall|k: int| 0 <= k < i ==> (#[trigger] found[k])@ == without_return(parts[k]@),
        decreases last - i,
    {
        found.push(strip_return(parts[i]));
        i += 1;
    }
    assert(pieces(text@, LINE_FEED).last() == parts[last as int]@);
    if parts[last].len() > 0 {
        found.push(parts[last]);
    }
    found
}

/// Cuts `line` into its fields.
fn split_fields<'a>(line: &'a [u8]) -> (found: Vec<&'a [u8]>)
    ensures
        contents(found@) == fields(line@),
{
    let mut found: Vec<&'a [u8]> = Vec::new();
    let mut from: usize = 0;
    proof {
        assert(line@.skip(0) =~= line@);
    }
    while from < line.len()
        invariant
            from <= line.len(),
            fields(line@) == contents(found@) + fields(line@.skip(from as int)),
        decreases line.len() - from,
    {
        let rest = &line[from..line.len()];
        if blank(line[from]) {
            assert(rest@.skip(1) =~= line@.skip(from + 1));
            from += 1;
        } else {
            let n = find_blank(rest);
            let field = &rest[0..n];
            found.push(field);
            proof {
                assert(rest@.skip(n as int) =~= line@.skip(from + n));
            }
            from += n;
        }
    }
    found
}

/// Digits that go on never write a smaller number.
proof fn lemma_digits_value_grows(digits: Seq<u8>, k: int)
    requires
        0 <= k <= digits.len(),
        forall|i: int| 0 <= i < digits.len() ==> is_digit(#[trigger] digits[i]),
    ensures
        digits_value(digits.take(k)) <= digits_value(digits),
    decreases digits.len() - k,
{
    if k < digits.len() {
        lemma_digits_value_grows(digits, k + 1);
        assert(digits.take(k + 1).drop_last() =~= digits.take(k));
    } else {
        assert(digits.take(k) =~= digits);
    }
}

/// The number that `digits` writes, if it is one digit or more, nothing
/// else, and the number is no more than `limit`.
fn read_digits(digits: &[u8], limit: u64) -> (value: Option<u64>)
    ensures
        value == match magnitude(digits@) {
            Some(n) => if n <= limit {
                Some(n as u64)
            } else {
                None
            },
            None => None,
        },
{
    if digits.len() == 0 {
        return None;
    }
    let mut value: u64 = 0;
    let mut i: usize = 0;
    while i < digits.len()
        invariant
            i <= digits.len(),
            forall|j: int| 0 <= j < i ==> is_digit(#[trigger] digits[j]),
            value == digits_value(digits@.take(i as int)),
            value <= limit,
        decreases digits.len() - i,
    {
        let byte = digits[i];
        if byte < ZERO || byte > NINE {
            return None;
        }
        let digit = (byte - ZERO) as u64;
        proof {
            assert(digits@.take(i + 1).drop_last() =~= digits@.take(i as int));
        }
        if digit > limit || value > (limit - digit) / 10 {
            proof {
                if magnitude(digits@) is Some {
                    lemma_digits_value_grows(digits@, i + 1);
                }
            }
            return None;
        }
        value = value * 10 + digit;
        i += 1;
    }
    assert(digits@.take(digits.len() as int) =~= digits@);
    Some(value)
}

/// The amount that `field` writes.
fn read_amount(field: &[u8]) -> (value: Option<i32>)
    ensures
        value matches Some(n) ==> amount(field@) == Some(n as int),
        value is None ==> amount(field@) is None,
{
    if field.len() > 0 && field[0] == MINUS {
        let digits = &field[1..field.len()];
        match read_digits(digits, i32::MAX as u64 + 1) {
            Some(n) => {
                let negated: i64 = 0 - (n as i64);
                Some(negated as i32)
            },
            None => None,
        }
    } else if field.len() > 0 && field[0] == PLUS {
        let digits = &field[1..field.len()];
        match read_digits(digits, i32::MAX as u64) {
            Some(n) => Some(n as i32),
            None => None,
        }
    } else {
        match read_digits(field, i32::MAX as u64) {
            Some(n) => Some(n as i32),
            None => None,
        }
    }
}

/// The count that `line` writes.
fn read_count(line: &[u8]) -> (value: Option<usize>)
    ensures
        value matches Some(n) ==> count(line@) == Some(n as nat),
        value is None ==> count(line@) is None,
{
    if line.len() > 0 && line[0] == MINUS {
        None
    } else if line.len() > 0 && line[0] == PLUS {
        let digits = &line[1..line.len()];
        match read_digits(digits, usize::MAX as u64) {
            Some(n) => Some(n as usize),
            None => None,
        }
    } else {
        match read_digits(line, usize::MAX as u64) {
            Some(n) => Some(n as usize),
            None => None,
        }
    }
}

/// The amounts that `line` writes.
fn read_amounts(line: &[u8]) -> (values: Option<Vec<i32>>)
    ensures
        values matches Some(row) ==> amounts(line@) == Some(ints(row@)),
        values is None ==> amounts(line@) is None,
{
    let found = split_fields(line);
    let ghost written = fields(line@);
    let mut row: Vec<i32> = Vec::new();
    let mut i: usize = 0;
    while i < found.len()
        invariant
            i <= found.len(),
            contents(found@) == written,
            written == fields(line@),
            row.len() == i,
            forall|k: int| 0 <= k < i ==> amount(#[trigger] written[k]) == Some(row[k] as int),
        decreases found.len() - i,
    {
        assert(contents(found@)[i as int] == found[i as int]@);
        match read_amount(found[i]) {
            Some(n) => {
                row.push(n);
            },
            None => {
                return None;
            },
        }
        i += 1;
    }
    Some(row)
}

/// The maximum and the holdings that the line of a process writes.
fn read_process_row(line: &[u8]) -> (values: Option<(Vec<i32>, Vec<i32>)>)
    ensures
        values matches Some(row) ==> process_row(line@) == Some((ints(row.0@), ints(row.1@))),
        values is None ==> process_row(line@) is None,
{
    let parts = split_at_mark(line, BAR);
    if parts.len() != 3 {
        return None;
    }
    let most = read_amounts(parts[0]);
    let held_now = read_amounts(parts[1]);
    match (most, held_now) {
        (Some(most), Some(held_now)) => Some((most, held_now)),
        _ => None,
    }
}

/// Reads the description of a ledger and makes the ledger that it gives.
///
/// The text is malformed, and no ledger is made, if it does not have the
/// form of a description or if what it describes gives no ledger.
pub fn read_description(text: &[u8]) -> (made: Result<SystemState, MalformedInput>)
    ensures
        made is Ok <==> (described(text@) matches Some(d) && is_valid_description(
            d.available,
            d.max,
            d.allocated,
        )),
        made matches Ok(state) ==> state.wf() && state@ == initial_ledger(
            described(text@).unwrap().available,
            described(text@).unwrap().max,
            described(text@).unwrap().allocated,
        ),
{
    let all = split_lines(text);
    let ghost written = lines(text@);
    if all.len() < 3 {
        return Err(MalformedInput);
    }
    let resource_count = match read_count(all[0]) {
        Some(n) => n,
        None => {
            return Err(MalformedInput);
        },
    };
    let process_count = match read_count(all[1]) {
        Some(n) => n,
        None => {
            return Err(MalformedInput);
        },
    };
    let available = match read_amounts(all[2]) {
        Some(row) => row,
        None => {
            return Err(MalformedInput);
        },
    };
    if available.len() != resource_count || all.len() - 3 < process_count {
        return Err(MalformedInput);
    }
    let mut max: Vec<Vec<i32>> = Vec::new();
    let mut allocated: Vec<Vec<i32>> = Vec::new();
    let ghost rows = written.skip(3);
    let mut p: usize = 0;
    while p < process_count
        invariant
            p <= process_count,
            all.len() >= 3 + process_count,
            contents(all@) == written,
            written == lines(text@),
            rows == written.skip(3),
            count(written[1]) == Some(process_count as nat),
            max.len() == p,
            allocated.len() == p,
            forall|q: int|
                0 <= q < p ==> process_row(#[trigger] rows[q]) == Some(
                    (ints(max[q]@), ints(allocated[q]@)),
                ),
        decreases process_count - p,
    {
        assert(rows[p as int] == written[3 + p]);
        match read_process_row(all[3 + p]) {
            Some(row) => {
                max.push(row.0);
                allocated.push(row.1);
            },
            None => {
                return Err(MalformedInput);
            },
        }
        p += 1;
    }
    proof {
        assert(is_description(text@));
        let d = described(text@).unwrap();
        assert(d.max =~= int_rows(max@));
        assert(d.allocated =~= int_rows(allocated@));
    }
    SystemState::new(available, max, allocated)
}

} // verus!
