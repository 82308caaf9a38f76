//! The keys of the persisted entries: an id written as decimal text.

use crate::decode::read_lossy;
use crate::segment::text_bytes;
use vstd::prelude::*;
use vstd::utf8::{decode_utf8_encode_utf8, partial_valid_utf8_extend_ascii_block, valid_utf8};

verus! {

/// The byte is one of the digits `0` to `9`.
pub open spec fn is_digit(b: u8) -> bool {
    48 <= b <= 57
}

/// The number that digits stand for, read as decimal.
pub open spec fn decimal_value(digits: Seq<u8>) -> nat
    decreases digits.len(),
{
    if digits.len() == 0 {
        0
    } else {
        decimal_value(digits.drop_last()) * 10 + (digits.last() as int - 48) as nat
    }
}

/// The bytes are a number as it is written: one digit or more, and no
/// zero in front of other digits.
pub open spec fn is_decimal(digits: Seq<u8>) -> bool {
    &&& digits.len() > 0
    &&& forall|i: int| 0 <= i < digits.len() ==> is_digit(#[trigger] digits[i])
    &&& digits.len() > 1 ==> digits[0] != 48
}

/// The id that a key names: the number that the key is the decimal text
/// of, if it is one and fits in 32 bits.
pub open spec fn key_id(key: Seq<char>) -> Option<u32> {
    let digits = text_bytes(key);
    if is_decimal(digits) && decimal_value(digits) <= u32::MAX {
        Some(decimal_value(digits) as u32)
    } else {
        None
    }
}

/// The digits that `n` is written with.
pub open spec fn decimal(n: nat) -> Seq<u8>
    decreases n,
{
    if n < 10 {
        seq![(48 + n) as u8]
    } else {
        decimal(n / 10).push((48 + n % 10) as u8)
    }
}

/// The digits that a number is written with are a number as it is
/// written, and stand for that number.
pub proof fn lemma_decimal_reads_back(n: nat)
    ensures
        is_decimal(decimal(n)),
        decimal_value(decimal(n)) == n,
        n > 0 ==> decimal(n)[0] != 48,
    decreases n,
{
    if n < 10 {
        let d = decimal(n);
        assert(d.drop_last() =~= Seq::<u8>::empty());
        assert(decimal_value(d.drop_last()) == 0);
    } else {
        lemma_decimal_reads_back(n / 10);
        let front = decimal(n / 10);
        let d = decimal(n);
        assert(d.drop_last() =~= front);
        assert(d[0] == front[0]);
    }
}

/// More digits stand for no smaller a number.
pub proof fn lemma_value_grows(digits: Seq<u8>, i: int)
    requires
        0 <= i <= digits.len(),
        forall|j: int| 0 <= j < digits.len() ==> is_digit(#[trigger] digits[j]),
    ensures
        decimal_value(digits.take(i)) <= decimal_value(digits),
    decreases digits.len() - i,
{
    if i < digits.len() {
        let front = digits.drop_last();
        assert(front.take(i) =~= digits.take(i));
        lemma_value_grows(front, i);
        assert(is_digit(digits[digits.len() - 1]));
    } else {
        assert(digits.take(i) =~= digits);
    }
}

/// Appends the digits of `n`.
fn push_digits(n: u32, out: &mut Vec<u8>)
    ensures
        final(out)@ == old(out)@ + decimal(n as nat),
    decreases n,
{
    if n >= 10 {
        push_digits(n / 10, out);
    }
    let digit: u8 = 48 + (n % 10) as u8;
    out.push(digit);
    proof {
        if n >= 10 {
            assert(old(out)@ + decimal(n as nat) =~= (old(out)@ + decimal((n / 10) as nat)).push(
                digit,
            ));
        } else {
            assert(old(out)@ + decimal(n as nat) =~= old(out)@.push(digit));
        }
    }
}

/// The key of an id: its decimal text.
pub fn key_of(id: u32) -> (key: String)
    ensures
        text_bytes(key@) == decimal(id as nat),
        key_id(key@) == Some(id),
{
    let mut digits: Vec<u8> = Vec::new();
    push_digits(id, &mut digits);
    proof {
        lemma_decimal_reads_back(id as nat);
        assert(digits@ =~= decimal(id as nat));
        assert(digits@.subrange(0, 0) =~= Seq::<u8>::empty());
        assert(valid_utf8(digits@.subrange(0, 0)));
        assert forall|i: int| 0 <= i < digits@.len() implies #[trigger] vstd::utf8::is_leading_byte_width_1(
            digits@[i],
        ) by {
            assert(is_digit(digits@[i]));
        }
        partial_valid_utf8_extend_ascii_block(digits@, 0, digits@.len() as int);
        assert(digits@.subrange(0, digits@.len() as int) =~= digits@);
        decode_utf8_encode_utf8(digits@);
    }
    read_lossy(digits.as_slice())
}

/// The id that a key names, or `None` where the key is not the decimal
/// text of an id.
pub fn id_of(key: &str) -> (id: Option<u32>)
    ensures
        id == key_id(key@),
{
    let digits = key.as_bytes();
    let n: usize = digits.len();
    if n == 0 {
        return None;
    }
    if n > 1 && digits[0] == 48 {
        return None;
    }
    let mut value: u64 = 0;
    let mut i: usize = 0;
    while i < n
        invariant
            n == digits@.len(),
            digits@ == text_bytes(key@),
            i <= n,
            forall|j: int| 0 <= j < i ==> is_digit(#[trigger] digits@[j]),
            value == decimal_value(digits@.take(i as int)),
            value <= u32::MAX,
        decreases n - i,
    {
        let b = digits[i];
        if b < 48 || b > 57 {
            return None;
        }
        proof {
            assert(digits@.take(i + 1).drop_last() =~= digits@.take(i as int));
        }
        value = value * 10 + (b - 48) as u64;
        if value > 0xFFFF_FFFF {
            proof {
                if is_decimal(digits@) {
                    lemma_value_grows(digits@, i + 1);
                }
            }
            return None;
        }
        i += 1;
    }
    proof {
        assert(digits@.take(i as int) =~= digits@);
    }
    Some(value as u32)
}

} // verus!
