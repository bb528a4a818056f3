//! Plain-text helpers shared by the form parser and the handlers: comparing
//! byte strings, turning ASCII string literals into byte vectors, and reading
//! and writing unsigned 64-bit integers in decimal.

use vstd::prelude::*;

verus! {

/// The byte value of the digit `0`.
pub const ZERO: u8 = 48;

/// The byte value of the digit `9`.
pub const NINE: u8 = 57;

use vstd::string::StringSliceAdditionalSpecFns;

/// The bytes of an ASCII character sequence, character by character.
pub open spec fn ascii_bytes(s: Seq<char>) -> Seq<u8> {
    Seq::new(s.len(), |i: int| s[i] as u8)
}

/// Copy the bytes of an ASCII string slice.
pub fn text_bytes(s: &str) -> (r: Vec<u8>)
    requires
        vstd::string::is_ascii(s),
    ensures
        r@ == ascii_bytes(s@),
{
    proof {
        broadcast use vstd::string::is_ascii_spec_bytes;

        assert(s.spec_bytes() =~= ascii_bytes(s@));
    }
    vstd::slice::slice_to_vec(s.as_bytes())
}

/// Compare two byte strings for equality.
pub fn bytes_eq(a: &[u8], b: &[u8]) -> (r: bool)
    ensures
        r == (a@ == b@),
{
    if a.len() != b.len() {
        return false;
    }
    let mut i: usize = 0;
    while i < a.len()
        invariant
            0 <= i <= a@.len(),
            a@.len() == b@.len(),
            forall|k: int| 0 <= k < i ==> a@[k] == b@[k],
        decreases a@.len() - i,
    {
        if a[i] != b[i] {
            return false;
        }
        i += 1;
    }
    proof {
        assert(a@ =~= b@);
    }
    true
}

/// `b` is an ASCII decimal digit.
pub open spec fn is_digit(b: u8) -> bool {
    ZERO <= b <= NINE
}

/// The numeric value of a digit byte.
pub open spec fn digit_val(b: u8) -> nat {
    (b - ZERO) as nat
}

/// Every byte of `t` is a decimal digit.
pub open spec fn all_digits(t: Seq<u8>) -> bool {
    forall|i: int| 0 <= i < t.len() ==> is_digit(#[trigger] t[i])
}

/// The number that the digit string `t` denotes in base 10.
pub open spec fn dec_val(t: Seq<u8>) -> nat
    decreases t.len(),
{
    if t.len() == 0 {
        0
    } else {
        dec_val(t.drop_last()) * 10 + digit_val(t.last())
    }
}

/// `t` is the text of a number that fits in a `u64`: nonempty, all decimal
/// digits, and at most `u64::MAX` in value.
pub open spec fn is_u64_text(t: Seq<u8>) -> bool {
    t.len() > 0 && all_digits(t) && dec_val(t) <= u64::MAX
}

/// A longer prefix of a digit string never denotes a smaller number.
proof fn lemma_dec_val_prefix_le(t: Seq<u8>, i: int, j: int)
    requires
        0 <= i <= j <= t.len(),
    ensures
        dec_val(t.take(i)) <= dec_val(t.take(j)),
    decreases j - i,
{
    if i < j {
        lemma_dec_val_prefix_le(t, i, j - 1);
        assert(t.take(j).drop_last() =~= t.take(j - 1));
        assert(dec_val(t.take(j - 1)) * 10 >= dec_val(t.take(j - 1)));
    }
}

/// Parse a decimal `u64`, accepting exactly the strings of digits whose value
/// fits; anything else is `None`.
pub fn parse_u64(t: &[u8]) -> (r: Option<u64>)
    ensures
        match r {
            Some(v) => is_u64_text(t@) && v as nat == dec_val(t@),
            None => !is_u64_text(t@),
        },
{
    if t.len() == 0 {
        return None;
    }
    let mut acc: u64 = 0;
    let mut i: usize = 0;
    while i < t.len()
        invariant
            0 <= i <= t@.len(),
            all_digits(t@.take(i as int)),
            acc as nat == dec_val(t@.take(i as int)),
        decreases t@.len() - i,
    {
        let b = t[i];
        if b < ZERO || b > NINE {
            assert(!is_digit(t@[i as int]));
            return None;
        }
        let d = b - ZERO;
        proof {
            assert(t@.take(i + 1).drop_last() =~= t@.take(i as int));
            assert(t@.take(i + 1).last() == t@[i as int]);
            assert(forall|k: int|
                0 <= k < i + 1 ==> is_digit(#[trigger] t@.take(i + 1)[k]));
        }
        let wide = match acc.checked_mul(10) {
            Some(w) => w,
            None => {
                proof {
                    lemma_dec_val_prefix_le(t@, i + 1, t@.len() as int);
                    assert(t@.take(t@.len() as int) =~= t@);
                }
                return None;
            },
        };
        acc = match wide.checked_add(d as u64) {
            Some(a) => a,
            None => {
                proof {
                    lemma_dec_val_prefix_le(t@, i + 1, t@.len() as int);
                    assert(t@.take(t@.len() as int) =~= t@);
                }
                return None;
            },
        };
        i += 1;
    }
    proof {
        assert(t@.take(t@.len() as int) =~= t@);
    }
    Some(acc)
}

/// The decimal text of `n`: most significant digit first, no leading zeros
/// (a single `0` for zero itself).
pub open spec fn dec_text(n: nat) -> Seq<u8>
    decreases n,
{
    if n < 10 {
        seq![(n + ZERO) as u8]
    } else {
        dec_text(n / 10) + seq![((n % 10) + ZERO) as u8]
    }
}

/// Write `n` in decimal.
pub fn u64_to_dec(n: u64) -> (r: Vec<u8>)
    ensures
        r@ == dec_text(n as nat),
    decreases n,
{
    if n < 10 {
        let mut v: Vec<u8> = Vec::new();
        v.push(ZERO + (n as u8));
        proof {
            assert(v@ =~= dec_text(n as nat));
        }
        v
    } else {
        let mut v = u64_to_dec(n / 10);
        v.push(ZERO + ((n % 10) as u8));
        proof {
            assert(v@ =~= dec_text(n as nat));
        }
        v
    }
}

} // verus!
