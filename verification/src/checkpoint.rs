//! The bytes of a checkpoint: the nimbers of one window, each in two bytes with
//! the more significant byte first, and nothing between them.
use crate::nimber::{Nimber, NIMBER_BYTES};
use vstd::prelude::*;
use vstd::string::StrSliceExecFns;

verus! {

/// Why bytes are no checkpoint.
#[derive(Copy, Clone, Debug, PartialEq, Eq, Structural)]
pub enum CheckpointError {
    /// A window of so many nimbers takes `expected` bytes, or more than the
    /// machine can count where `expected` is `None`; `found` were given.
    WrongLength { expected: Option<usize>, found: usize },
}

/// The bytes that stand for the nimbers `window`.
pub open spec fn encoded(window: Seq<Nimber>) -> Seq<u8> {
    Seq::new(
        2 * window.len(),
        |k: int|
            if k % 2 == 0 {
                (window[k / 2] / 256) as u8
            } else {
                (window[k / 2] % 256) as u8
            },
    )
}

/// The nimbers that the bytes stand for, as far as they come in twos.
pub open spec fn decoded(bytes: Seq<u8>) -> Seq<Nimber> {
    Seq::new(bytes.len() / 2, |i: int| (bytes[2 * i] * 256 + bytes[2 * i + 1]) as Nimber)
}

/// A window that is written and read again is the same window.
pub proof fn lemma_checkpoint_round_trip(window: Seq<Nimber>)
    ensures
        encoded(window).len() == NIMBER_BYTES * window.len(),
        decoded(encoded(window)) == window,
{
    assert(decoded(encoded(window)) =~= window);
}

/// Bytes that come in twos are the bytes of the window they stand for.
pub proof fn lemma_checkpoint_bytes_round_trip(bytes: Seq<u8>)
    requires
        bytes.len() % 2 == 0,
    ensures
        encoded(decoded(bytes)) == bytes,
{
    assert(encoded(decoded(bytes)) =~= bytes);
}

/// Writes a window as the bytes of a checkpoint.
pub fn encode_window(window: &Vec<Nimber>) -> (bytes: Vec<u8>)
    ensures
        bytes@ == encoded(window@),
{
    let mut bytes: Vec<u8> = Vec::new();
    let mut i: usize = 0;
    while i < window.len()
        invariant
            i <= window@.len(),
            bytes@ == encoded(window@.take(i as int)),
        decreases window@.len() - i,
    {
        let nim = window[i];
        bytes.push((nim / 256) as u8);
        bytes.push((nim % 256) as u8);
        assert(bytes@ =~= encoded(window@.take(i + 1)));
        i = i + 1;
    }
    assert(window@.take(i as int) =~= window@);
    bytes
}

/// Reads the window of `max` nimbers that the bytes of a checkpoint stand for.
///
/// Fails unless there are exactly two bytes for each nimber.
pub fn decode_window(bytes: &[u8], max: usize) -> (r: Result<Vec<Nimber>, CheckpointError>)
    ensures
        match r {
            Ok(window) => bytes@.len() == NIMBER_BYTES * max && window@ == decoded(bytes@),
            Err(CheckpointError::WrongLength { expected, found }) => {
                &&& bytes@.len() != NIMBER_BYTES * max
                &&& found == bytes@.len()
                &&& expected == if NIMBER_BYTES * max <= usize::MAX {
                    Some((NIMBER_BYTES * max) as usize)
                } else {
                    None::<usize>
                }
            },
        },
{
    let found = bytes.len();
    let expected = max.checked_mul(NIMBER_BYTES);
    match expected {
        Some(len) => {
            if len != found {
                return Err(CheckpointError::WrongLength { expected, found });
            }
        },
        None => {
            return Err(CheckpointError::WrongLength { expected, found });
        },
    }
    let mut window: Vec<Nimber> = Vec::new();
    let mut i: usize = 0;
    while i < max
        invariant
            i <= max,
            2 * max <= usize::MAX,
            bytes@.len() == 2 * max,
            window@ == decoded(bytes@).take(i as int),
        decreases max - i,
    {
        let high = bytes[2 * i];
        let low = bytes[2 * i + 1];
        window.push(high as Nimber * 256 + low as Nimber);
        assert(window@ =~= decoded(bytes@).take(i + 1));
        i = i + 1;
    }
    assert(decoded(bytes@).take(i as int) =~= decoded(bytes@));
    Ok(window)
}

/// `c` is a decimal digit.
pub open spec fn is_decimal_digit(c: char) -> bool {
    '0' <= c <= '9'
}

/// The number that the decimal digits `digits` write.
pub open spec fn decimal_value(digits: Seq<char>) -> int
    decreases digits.len(),
{
    if digits.len() == 0 {
        0
    } else {
        10 * decimal_value(digits.drop_last()) + (digits.last() as int - '0' as int)
    }
}

/// Where the last part of a name starts: behind its last underscore, and at 0
/// where it has none.
pub open spec fn last_part_start(name: Seq<char>) -> int
    decreases name.len(),
{
    if name.len() == 0 || name.last() == '_' {
        name.len() as int
    } else {
        last_part_start(name.drop_last())
    }
}

/// The heap that the name of a checkpoint gives: the number behind the last
/// underscore of the name. There is none where the name has no underscore,
/// where nothing or anything but decimal digits follows it, and where the
/// number is more than the machine counts.
pub open spec fn named_index(name: Seq<char>) -> Option<usize> {
    let start = last_part_start(name);
    let digits = name.subrange(start, name.len() as int);
    if start > 0 && digits.len() > 0 && (forall|k: int|
        0 <= k < digits.len() ==> is_decimal_digit(#[trigger] digits[k])) && decimal_value(digits)
        <= usize::MAX {
        Some(decimal_value(digits) as usize)
    } else {
        None
    }
}

/// Digits write a number that is at least what fewer of them write.
pub proof fn lemma_decimal_value_grows(digits: Seq<char>, k: int)
    requires
        0 <= k <= digits.len(),
        forall|j: int| 0 <= j < digits.len() ==> is_decimal_digit(#[trigger] digits[j]),
    ensures
        0 <= decimal_value(digits.take(k)) <= decimal_value(digits),
    decreases digits.len(),
{
    if k == digits.len() {
        assert(digits.take(k) =~= digits);
        if digits.len() > 0 {
            lemma_decimal_value_grows(digits.drop_last(), k - 1);
        }
    } else {
        lemma_decimal_value_grows(digits.drop_last(), k);
        assert(digits.drop_last().take(k) =~= digits.take(k));
    }
}

/// The heap that the name of a checkpoint gives.
pub fn checkpoint_index(name: &str) -> (r: Option<usize>)
    ensures
        r == named_index(name@),
{
    let len = name.unicode_len();
    let mut start = len;
    assert(name@.take(len as int) =~= name@);
    while start > 0 && name.get_char(start - 1) != '_'
        invariant
            start <= len,
            len == name@.len(),
            last_part_start(name@) == last_part_start(name@.take(start as int)),
        decreases start,
    {
        assert(name@.take(start as int).drop_last() =~= name@.take(start - 1));
        start = start - 1;
    }
    proof {
        if start > 0 {
            assert(name@.take(start as int).last() == '_');
        }
    }
    assert(start == last_part_start(name@));
    if start == 0 || start == len {
        return None;
    }
    let ghost digits = name@.subrange(start as int, len as int);
    let mut value: usize = 0;
    let mut i = start;
    while i < len
        invariant
            0 < start <= i <= len,
            start < len,
            len == name@.len(),
            start == last_part_start(name@),
            digits == name@.subrange(start as int, len as int),
            forall|k: int| 0 <= k < i - start ==> is_decimal_digit(#[trigger] digits[k]),
            value == decimal_value(digits.take(i - start)),
        decreases len - i,
    {
        let c = name.get_char(i);
        assert(c == digits[i - start]);
        if !('0' <= c && c <= '9') {
            return None;
        }
        let d = (c as u32 - '0' as u32) as usize;
        proof {
            assert(digits.take(i - start + 1).drop_last() =~= digits.take(i - start));
            assert(decimal_value(digits.take(i - start + 1)) == 10 * value + d);
            if 10 * value + d > usize::MAX {
                if forall|k: int| 0 <= k < digits.len() ==> is_decimal_digit(#[trigger] digits[k]) {
                    lemma_decimal_value_grows(digits, i - start + 1);
                }
            }
        }
        value = match value.checked_mul(10) {
            Some(tens) => match tens.checked_add(d) {
                Some(sum) => sum,
                None => {
                    return None;
                },
            },
            None => {
                return None;
            },
        };
        i = i + 1;
    }
    assert(digits.take(i - start) =~= digits);
    Some(value)
}

} // verus!
