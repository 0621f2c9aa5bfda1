use crate::op1::{key_numbers, key_range, key_span, semitone_range, step_numbers};
use vstd::prelude::*;
use vstd::string::StrSliceExecFns;

verus! {

/// Why a text is not a number of the kind asked for.
#[derive(Debug, Clone, Copy, PartialEq, Eq, Structural)]
pub enum NumberError {
    /// The text is empty.
    Empty,
    /// A sign without digits, or a character that is no digit.
    InvalidDigit,
    /// The number is too large.
    PosOverflow,
    /// The number is too small.
    NegOverflow,
}

/// Why a list of keys or semitones cannot be taken.
#[derive(Debug, Clone, Copy, PartialEq, Eq, Structural)]
pub enum ListError {
    /// The entry at this place holds something that is no number.
    Number(usize, NumberError),
    /// The entry at this place has more than one colon.
    Invalid(usize),
}

/// Whether the character is one of the ten digits.
pub open spec fn is_digit(c: char) -> bool {
    '0' <= c <= '9'
}

/// Number of digits at the start of the text.
pub open spec fn digit_run(text: Seq<char>) -> nat
    decreases text.len(),
{
    if text.len() == 0 || !is_digit(text[0]) {
        0
    } else {
        1 + digit_run(text.skip(1))
    }
}

/// The number that a text of digits spells.
pub open spec fn decimal(digits: Seq<char>) -> nat
    decreases digits.len(),
{
    if digits.len() == 0 {
        0
    } else {
        (decimal(digits.drop_last()) * 10 + (digits.last() as int - '0' as int)) as nat
    }
}

/// The whole number from `lo` to `hi` that a text spells: digits, behind
/// a plus sign if there is one, or a minus sign where `lo` is negative. A
/// number out of range is reported as such even where something that is
/// no digit follows its first digits.
pub open spec fn number(text: Seq<char>, lo: int, hi: int) -> Result<int, NumberError> {
    if text.len() == 0 {
        Err(NumberError::Empty)
    } else {
        let minus = lo < 0 && text[0] == '-';
        let digits = if text[0] == '+' || minus {
            text.skip(1)
        } else {
            text
        };
        let run = digit_run(digits);
        let size = decimal(digits.take(run as int));
        if digits.len() == 0 {
            Err(NumberError::InvalidDigit)
        } else if !minus && size > hi {
            Err(NumberError::PosOverflow)
        } else if minus && -size < lo {
            Err(NumberError::NegOverflow)
        } else if run < digits.len() {
            Err(NumberError::InvalidDigit)
        } else if minus {
            Ok(-size)
        } else {
            Ok(size as int)
        }
    }
}

/// The digits at the start of a text are digits, and what follows them is
/// none.
pub proof fn lemma_digit_run(text: Seq<char>, k: int)
    requires
        0 <= k <= text.len(),
        forall|i: int| 0 <= i < k ==> is_digit(#[trigger] text[i]),
    ensures
        k <= digit_run(text) <= text.len(),
        (k == text.len() || !is_digit(text[k])) ==> digit_run(text) == k,
    decreases k,
{
    lemma_digit_run_bound(text);
    if k > 0 {
        assert(is_digit(text[0]));
        assert forall|i: int| 0 <= i < k - 1 implies is_digit(#[trigger] text.skip(1)[i]) by {
            assert(is_digit(text[i + 1]));
        }
        lemma_digit_run(text.skip(1), k - 1);
    }
}

/// A text has no more digits at its start than characters.
pub proof fn lemma_digit_run_bound(text: Seq<char>)
    ensures
        digit_run(text) <= text.len(),
    decreases text.len(),
{
    if text.len() > 0 && is_digit(text[0]) {
        lemma_digit_run_bound(text.skip(1));
    }
}

/// The digits at the start of a text are digits.
pub proof fn lemma_digit_run_digits(text: Seq<char>)
    ensures
        forall|i: int| 0 <= i < digit_run(text) ==> is_digit(#[trigger] text[i]),
    decreases text.len(),
{
    if text.len() > 0 && is_digit(text[0]) {
        lemma_digit_run_digits(text.skip(1));
        lemma_digit_run_bound(text);
        assert forall|i: int| 0 <= i < digit_run(text) implies is_digit(#[trigger] text[i]) by {
            if i > 0 {
                assert(text.skip(1)[i - 1] == text[i]);
            }
        }
    }
}

/// More digits spell no smaller a number.
pub proof fn lemma_decimal_grows(digits: Seq<char>, j: int, k: int)
    requires
        0 <= j <= k <= digits.len(),
        forall|i: int| 0 <= i < k ==> is_digit(#[trigger] digits[i]),
    ensures
        decimal(digits.take(j)) <= decimal(digits.take(k)),
    decreases k - j,
{
    if j < k {
        lemma_decimal_grows(digits, j + 1, k);
        assert(digits.take(j + 1).drop_last() =~= digits.take(j));
        assert(is_digit(digits[j]));
    }
}

/// Reads the whole number from `lo` to `hi` that the characters of `text`
/// from `from` up to `to` spell.
fn parse_number(text: &str, from: usize, to: usize, lo: i32, hi: i32) -> (out: Result<
    i32,
    NumberError,
>)
    requires
        from <= to <= text@.len(),
        -1000 <= lo <= 0 <= hi <= 1000,
    ensures
        match number(text@.subrange(from as int, to as int), lo as int, hi as int) {
            Ok(n) => out == Ok::<i32, NumberError>(n as i32) && lo <= n <= hi,
            Err(e) => out == Err::<i32, NumberError>(e),
        },
{
    let ghost whole = text@.subrange(from as int, to as int);
    if from == to {
        return Err(NumberError::Empty);
    }
    let first = text.get_char(from);
    assert(first == whole[0]);
    let minus = lo < 0 && first == '-';
    let start: usize = if first == '+' || minus {
        from + 1
    } else {
        from
    };
    let ghost digits = text@.subrange(start as int, to as int);
    assert(digits =~= if first == '+' || minus {
        whole.skip(1)
    } else {
        whole
    });
    if start == to {
        return Err(NumberError::InvalidDigit);
    }
    let mut size: i32 = 0;
    let mut i: usize = start;
    assert(digits.take(0) =~= Seq::<char>::empty());
    while i < to
        invariant
            start <= i <= to <= text@.len(),
            -1000 <= lo <= 0 <= hi <= 1000,
            whole == text@.subrange(from as int, to as int),
            whole.len() > 0,
            minus == (lo < 0 && whole[0] == '-'),
            digits == (if whole[0] == '+' || minus {
                whole.skip(1)
            } else {
                whole
            }),
            digits.len() > 0,
            digits == text@.subrange(start as int, to as int),
            forall|k: int| 0 <= k < i - start ==> is_digit(#[trigger] digits[k]),
            size == decimal(digits.take(i - start)),
            !minus ==> size <= hi,
            minus ==> -size >= lo,
        decreases to - i,
    {
        let c = text.get_char(i);
        assert(c == digits[i - start]);
        if c < '0' || c > '9' {
            proof {
                lemma_digit_run(digits, i - start);
            }
            return Err(NumberError::InvalidDigit);
        }
        let digit: i32 = (c as u32 - '0' as u32) as i32;
        proof {
            assert(digits.take(i - start + 1).drop_last() =~= digits.take(i - start));
            assert(digits.take(i - start + 1).last() == c);
            lemma_digit_run(digits, i - start + 1);
            lemma_digit_run_digits(digits);
            lemma_decimal_grows(digits, i - start + 1, digit_run(digits) as int);
        }
        size = size * 10 + digit;
        if !minus && size > hi {
            return Err(NumberError::PosOverflow);
        }
        if minus && -size < lo {
            return Err(NumberError::NegOverflow);
        }
        i += 1;
    }
    proof {
        lemma_digit_run(digits, to - start);
        assert(digits.take(to - start) =~= digits);
    }
    if minus {
        Ok(-size)
    } else {
        Ok(size)
    }
}

/// Place of the first colon in the text, or its length where it has none.
pub open spec fn first_colon(text: Seq<char>) -> nat
    decreases text.len(),
{
    if text.len() == 0 || text[0] == ':' {
        0
    } else {
        1 + first_colon(text.skip(1))
    }
}

/// The numbers that one entry of a list stands for: the number it spells,
/// or, where it is two numbers with a colon between them, the numbers from
/// the first to the second, counted up or down. An entry with more colons
/// is refused before its numbers are looked at.
pub open spec fn entry(text: Seq<char>, at: usize, lo: int, hi: int) -> Result<
    Seq<int>,
    ListError,
> {
    let colon = first_colon(text) as int;
    if colon == text.len() {
        match number(text, lo, hi) {
            Ok(n) => Ok(seq![n]),
            Err(e) => Err(ListError::Number(at, e)),
        }
    } else {
        let rest = text.skip(colon + 1);
        if first_colon(rest) < rest.len() {
            Err(ListError::Invalid(at))
        } else {
            match number(text.take(colon), lo, hi) {
                Err(e) => Err(ListError::Number(at, e)),
                Ok(first) => match number(rest, lo, hi) {
                    Err(e) => Err(ListError::Number(at, e)),
                    Ok(last) => Ok(key_span(first, last)),
                },
            }
        }
    }
}

/// The numbers that a list of entries stands for, in the order of the
/// entries. The first entry that cannot be taken decides the refusal.
pub open spec fn entries(texts: Seq<Seq<char>>, lo: int, hi: int) -> Result<Seq<int>, ListError>
    decreases texts.len(),
{
    if texts.len() == 0 {
        Ok(Seq::empty())
    } else {
        match entries(texts.drop_last(), lo, hi) {
            Err(e) => Err(e),
            Ok(before) => match entry(texts.last(), (texts.len() - 1) as usize, lo, hi) {
                Err(e) => Err(e),
                Ok(span) => Ok(before + span),
            },
        }
    }
}

/// The entries of a list as texts.
pub open spec fn texts(values: Seq<String>) -> Seq<Seq<char>> {
    values.map_values(|value: String| value@)
}

/// Finds the first colon among the characters from `from` up to `to`.
fn find_colon(text: &str, from: usize, to: usize) -> (at: usize)
    requires
        from <= to <= text@.len(),
    ensures
        from <= at <= to,
        at - from == first_colon(text@.subrange(from as int, to as int)),
{
    let ghost part = text@.subrange(from as int, to as int);
    let mut i: usize = from;
    assert(part.skip(0) =~= part);
    while i < to
        invariant
            from <= i <= to <= text@.len(),
            part == text@.subrange(from as int, to as int),
            first_colon(part) == i - from + first_colon(part.skip(i - from)),
        decreases to - i,
    {
        let c = text.get_char(i);
        assert(part.skip(i - from)[0] == c);
        if c == ':' {
            return i;
        }
        assert(part.skip(i - from).skip(1) =~= part.skip(i - from + 1));
        i += 1;
    }
    i
}

/// Reads one entry of a list: one number, or two with a colon between
/// them.
fn parse_entry(text: &str, at: usize, lo: i32, hi: i32) -> (out: Result<
    (i32, Option<i32>),
    ListError,
>)
    requires
        -1000 <= lo <= 0 <= hi <= 1000,
    ensures
        match entry(text@, at, lo as int, hi as int) {
            Err(e) => out == Err::<(i32, Option<i32>), ListError>(e),
            Ok(span) => out matches Ok((first, last)) && lo <= first <= hi && match last {
                None => span == seq![first as int],
                Some(last) => lo <= last <= hi && span == key_span(first as int, last as int),
            },
        },
{
    let len = text.unicode_len();
    assert(text@.subrange(0, len as int) =~= text@);
    let colon = find_colon(text, 0, len);
    if colon == len {
        return match parse_number(text, 0, len, lo, hi) {
            Err(e) => Err(ListError::Number(at, e)),
            Ok(n) => Ok((n, None)),
        };
    }
    assert(text@.subrange(colon + 1, len as int) =~= text@.skip(colon + 1));
    assert(text@.subrange(0, colon as int) =~= text@.take(colon as int));
    if find_colon(text, colon + 1, len) < len {
        return Err(ListError::Invalid(at));
    }
    let first = match parse_number(text, 0, colon, lo, hi) {
        Err(e) => { return Err(ListError::Number(at, e)); },
        Ok(n) => n,
    };
    let last = match parse_number(text, colon + 1, len, lo, hi) {
        Err(e) => { return Err(ListError::Number(at, e)); },
        Ok(n) => n,
    };
    Ok((first, Some(last)))
}

/// Reads a list of keys as it is written by hand: each entry a number from
/// 0 to 255, or two of them with a colon between them for all the keys from
/// the first to the second.
pub fn parse_keys(values: &Vec<String>) -> (out: Result<Vec<u8>, ListError>)
    ensures
        match entries(texts(values@), 0, 255) {
            Err(e) => out matches Err(got) && got == e,
            Ok(numbers) => out matches Ok(keys) && key_numbers(keys@) == numbers,
        },
{
    let ghost all = texts(values@);
    let mut keys: Vec<u8> = Vec::new();
    let mut i: usize = 0;
    assert(all.take(0) =~= Seq::<Seq<char>>::empty());
    assert(key_numbers(keys@) =~= Seq::<int>::empty());
    while i < values.len()
        invariant
            i <= values@.len(),
            all == texts(values@),
            entries(all.take(i as int), 0, 255) == Ok::<Seq<int>, ListError>(key_numbers(keys@)),
        decreases values@.len() - i,
    {
        proof {
            assert(all.take(i + 1).drop_last() =~= all.take(i as int));
            assert(all.take(i + 1).last() == values@[i as int]@);
        }
        let ghost before = keys@;
        match parse_entry(values[i].as_str(), i, 0, 255) {
            Err(e) => {
                proof {
                    lemma_entries_fail(all, i + 1, 0, 255);
                }
                return Err(e);
            },
            Ok((first, None)) => {
                keys.push(first as u8);
                assert(key_numbers(keys@) =~= key_numbers(before) + seq![first as int]);
            },
            Ok((first, Some(last))) => {
                let mut span = key_range(first as u8, last as u8);
                let ghost added = span@;
                keys.append(&mut span);
                assert(key_numbers(keys@) =~= key_numbers(before) + key_numbers(added));
            },
        }
        i += 1;
    }
    assert(all.take(i as int) =~= all);
    Ok(keys)
}

/// Reads a list of whole semitones as it is written by hand: each entry a
/// number from -128 to 127, or two of them with a colon between them for
/// all the numbers from the first to the second.
pub fn parse_semitones(values: &Vec<String>) -> (out: Result<Vec<i8>, ListError>)
    ensures
        match entries(texts(values@), -128, 127) {
            Err(e) => out matches Err(got) && got == e,
            Ok(numbers) => out matches Ok(steps) && step_numbers(steps@) == numbers,
        },
{
    let ghost all = texts(values@);
    let mut steps: Vec<i8> = Vec::new();
    let mut i: usize = 0;
    assert(all.take(0) =~= Seq::<Seq<char>>::empty());
    assert(step_numbers(steps@) =~= Seq::<int>::empty());
    while i < values.len()
        invariant
            i <= values@.len(),
            all == texts(values@),
            entries(all.take(i as int), -128, 127) == Ok::<Seq<int>, ListError>(
                step_numbers(steps@),
            ),
        decreases values@.len() - i,
    {
        proof {
            assert(all.take(i + 1).drop_last() =~= all.take(i as int));
            assert(all.take(i + 1).last() == values@[i as int]@);
        }
        let ghost before = steps@;
        match parse_entry(values[i].as_str(), i, -128, 127) {
            Err(e) => {
                proof {
                    lemma_entries_fail(all, i + 1, -128, 127);
                }
                return Err(e);
            },
            Ok((first, None)) => {
                steps.push(first as i8);
                assert(step_numbers(steps@) =~= step_numbers(before) + seq![first as int]);
            },
            Ok((first, Some(last))) => {
                let mut span = semitone_range(first as i8, last as i8);
                let ghost added = span@;
                steps.append(&mut span);
                assert(step_numbers(steps@) =~= step_numbers(before) + step_numbers(added));
            },
        }
        i += 1;
    }
    assert(all.take(i as int) =~= all);
    Ok(steps)
}

/// Once an entry cannot be taken, no longer list can.
pub proof fn lemma_entries_fail(all: Seq<Seq<char>>, k: int, lo: int, hi: int)
    requires
        0 <= k <= all.len(),
        entries(all.take(k), lo, hi) is Err,
    ensures
        entries(all, lo, hi) == entries(all.take(k), lo, hi),
    decreases all.len() - k,
{
    if k < all.len() {
        assert(all.take(k + 1).drop_last() =~= all.take(k));
        lemma_entries_fail(all, k + 1, lo, hi);
    } else {
        assert(all.take(k) =~= all);
    }
}

} // verus!
