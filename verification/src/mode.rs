//! Permission modes.
//!
//! A tree row carries its entry's permission bits as octal text (a
//! regular file is conventionally `100644`). The store applies those
//! bits to the entry it writes and then clears every write bit, so
//! that shared hard links cannot be edited in place without deliberate
//! effort.

use vstd::prelude::*;

use crate::errors::Error;

verus! {

/// An octal digit byte, `0` through `7`.
pub open spec fn is_octal_digit(b: u8) -> bool {
    48 <= b <= 55
}

/// Nonempty text made of octal digits.
pub open spec fn valid_octal(s: Seq<u8>) -> bool {
    s.len() > 0 && forall|i: int| 0 <= i < s.len() ==> is_octal_digit(#[trigger] s[i])
}

/// The base-8 numeric value of a digit sequence. Meaningful when
/// `valid_octal` holds.
pub open spec fn octal_value(s: Seq<u8>) -> int
    decreases s.len(),
{
    if s.len() == 0 {
        0
    } else {
        octal_value(s.drop_last()) * 8 + (s.last() - 48)
    }
}

pub proof fn lemma_octal_value_nonneg(s: Seq<u8>)
    requires
        forall|i: int| 0 <= i < s.len() ==> is_octal_digit(#[trigger] s[i]),
    ensures
        octal_value(s) >= 0,
    decreases s.len(),
{
    if s.len() > 0 {
        lemma_octal_value_nonneg(s.drop_last());
    }
}

/// A valid octal text is worth at least any of its prefixes.
proof fn lemma_octal_prefix_le(s: Seq<u8>, i: int)
    requires
        0 <= i <= s.len(),
        forall|j: int| 0 <= j < s.len() ==> is_octal_digit(#[trigger] s[j]),
    ensures
        octal_value(s.take(i)) <= octal_value(s),
    decreases s.len() - i,
{
    if i < s.len() {
        lemma_octal_prefix_le(s, i + 1);
        assert(s.take(i + 1).drop_last() =~= s.take(i));
        assert(s.take(i + 1).last() == s[i]);
        lemma_octal_value_nonneg(s.take(i));
    } else {
        assert(s.take(i) =~= s);
    }
}

/// Parse a permission field as base-8 text.
pub fn parse_mode_octal(mode: &Vec<u8>) -> (r: Result<u32, Error>)
    ensures
        match r {
            Ok(v) => valid_octal(mode@) && octal_value(mode@) <= u32::MAX && v == octal_value(
                mode@,
            ),
            Err(e) => e == Error::ParseModeError && (!valid_octal(mode@) || octal_value(mode@)
                > u32::MAX),
        },
{
    if mode.len() == 0 {
        return Err(Error::ParseModeError);
    }
    let mut acc: u64 = 0;
    let mut i: usize = 0;
    proof {
        assert(mode@.take(0) =~= Seq::<u8>::empty());
    }
    while i < mode.len()
        invariant
            i <= mode.len(),
            forall|j: int| 0 <= j < i ==> is_octal_digit(#[trigger] mode@[j]),
            acc == octal_value(mode@.take(i as int)),
            acc <= u32::MAX,
        decreases mode.len() - i,
    {
        let b = mode[i];
        if b < 48 || b > 55 {
            return Err(Error::ParseModeError);
        }
        acc = acc * 8 + ((b - 48) as u64);
        i = i + 1;
        proof {
            assert(mode@.take(i as int).drop_last() =~= mode@.take(i - 1));
            assert(mode@.take(i as int).last() == mode@[i - 1]);
        }
        if acc > 0xFFFF_FFFF {
            proof {
                if valid_octal(mode@) {
                    lemma_octal_prefix_le(mode@, i as int);
                }
            }
            return Err(Error::ParseModeError);
        }
    }
    proof {
        assert(mode@.take(mode@.len() as int) =~= mode@);
    }
    Ok(acc as u32)
}

/// The permission bits with every write bit (owner, group, other)
/// cleared, everything else kept.
pub fn readonly_mode(v: u32) -> (r: u32)
    ensures
        r & 0o222 == 0,
        r | (v & 0o222) == v,
{
    let r = v & 0xFFFF_FF6D;
    proof {
        assert((v & 0xFFFF_FF6Du32) & 0o222u32 == 0 && (v & 0xFFFF_FF6Du32) | (v & 0o222u32)
            == v) by (bit_vector);
    }
    r
}

} // verus!
