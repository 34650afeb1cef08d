//! Addresses written in base 16.

use vstd::prelude::*;

verus! {

/// The value of a base-16 digit, in either case.
pub open spec fn digit_value(c: char) -> Option<int> {
    if '0' <= c && c <= '9' {
        Some(c as u32 - 48)
    } else if 'a' <= c && c <= 'f' {
        Some(c as u32 - 87)
    } else if 'A' <= c && c <= 'F' {
        Some(c as u32 - 55)
    } else {
        None
    }
}

/// The upper-case digit that stands for `d`.
pub open spec fn upper_digit(d: int) -> char {
    if d < 10 {
        ((d + 48) as u8) as char
    } else {
        ((d + 55) as u8) as char
    }
}

/// Whether `c` is a digit that `upper_digit` produces.
pub open spec fn is_upper_digit(c: char) -> bool {
    ('0' <= c && c <= '9') || ('A' <= c && c <= 'F')
}

/// Whether every character of `digits` is a base-16 digit.
pub open spec fn all_hex(digits: Seq<char>) -> bool {
    forall|i: int| 0 <= i < digits.len() ==> digit_value(#[trigger] digits[i]) is Some
}

/// The number that `digits` writes, most significant digit first.
pub open spec fn hex_value(digits: Seq<char>) -> int
    decreases digits.len(),
{
    if digits.len() == 0 {
        0
    } else {
        16 * hex_value(digits.drop_last()) + match digit_value(digits.last()) {
            Some(d) => d,
            None => 0,
        }
    }
}

/// The 32-bit number that `raw` writes in base 16: an optional plus sign,
/// followed by at least one digit. There is none where `raw` has another
/// shape or the number does not fit.
pub open spec fn hex_u32(raw: Seq<char>) -> Option<u32> {
    let digits = if raw.len() > 0 && raw[0] == '+' {
        raw.skip(1)
    } else {
        raw
    };
    if digits.len() > 0 && all_hex(digits) && hex_value(digits) <= u32::MAX {
        Some(hex_value(digits) as u32)
    } else {
        None
    }
}

/// The last `width` base-16 digits of `n`, in upper case, most significant
/// first.
pub open spec fn hex_digits(n: nat, width: nat) -> Seq<char>
    decreases width,
{
    if width == 0 {
        Seq::<char>::empty()
    } else {
        hex_digits(n / 16, (width - 1) as nat).push(upper_digit((n % 16) as int))
    }
}

/// An address as the link table writes it: eight upper-case digits.
pub open spec fn upper_hex(address: u32) -> Seq<char> {
    hex_digits(address as nat, 8)
}

/// Whether `n` can be written with `width` base-16 digits.
pub open spec fn fits(n: nat, width: nat) -> bool
    decreases width,
{
    if width == 0 {
        n == 0
    } else {
        fits(n / 16, (width - 1) as nat)
    }
}

pub proof fn lemma_hex_value_bounds(digits: Seq<char>)
    ensures
        0 <= hex_value(digits),
        fits(hex_value(digits) as nat, digits.len()),
    decreases digits.len(),
{
    if digits.len() > 0 {
        lemma_hex_value_bounds(digits.drop_last());
        let d: int = match digit_value(digits.last()) {
            Some(d) => d,
            None => 0,
        };
        let high = hex_value(digits.drop_last());
        assert(0 <= d < 16);
        assert((16 * high + d) / 16 == high);
    }
}

/// A number written with more digits is no smaller than the number that its
/// leading digits write.
pub proof fn lemma_hex_value_monotonic(digits: Seq<char>, k: int)
    requires
        0 <= k <= digits.len(),
    ensures
        hex_value(digits.take(k)) <= hex_value(digits),
    decreases digits.len(),
{
    if k == digits.len() {
        assert(digits.take(k) == digits);
    } else {
        lemma_hex_value_monotonic(digits.drop_last(), k);
        assert(digits.drop_last().take(k) == digits.take(k));
        lemma_hex_value_bounds(digits.drop_last());
    }
}

/// Eight digits write a number of 32 bits.
pub proof fn lemma_eight_digits_fit(n: nat)
    requires
        fits(n, 8),
    ensures
        n <= u32::MAX,
{
    reveal_with_fuel(fits, 9);
}

/// Every number of 32 bits can be written with eight digits.
pub proof fn lemma_u32_fits(address: u32)
    ensures
        fits(address as nat, 8),
{
    reveal_with_fuel(fits, 9);
}

/// Writing a number and reading it back gives the number.
pub proof fn lemma_write_read(n: nat, width: nat)
    requires
        fits(n, width),
    ensures
        hex_digits(n, width).len() == width,
        all_hex(hex_digits(n, width)),
        forall|i: int| 0 <= i < width ==> is_upper_digit(#[trigger] hex_digits(n, width)[i]),
        hex_value(hex_digits(n, width)) == n,
    decreases width,
{
    if width > 0 {
        lemma_write_read(n / 16, (width - 1) as nat);
        let written = hex_digits(n, width);
        let d = (n % 16) as int;
        assert(written.drop_last() == hex_digits(n / 16, (width - 1) as nat));
        assert(written.last() == upper_digit(d));
        assert(digit_value(upper_digit(d)) == Some(d));
        assert(is_upper_digit(upper_digit(d)));
    }
}

/// Reading upper-case digits and writing the number back with as many
/// digits gives the same digits.
pub proof fn lemma_read_write(digits: Seq<char>)
    requires
        forall|i: int| 0 <= i < digits.len() ==> is_upper_digit(#[trigger] digits[i]),
    ensures
        all_hex(digits),
        hex_value(digits) >= 0,
        hex_digits(hex_value(digits) as nat, digits.len()) == digits,
    decreases digits.len(),
{
    lemma_hex_value_bounds(digits);
    if digits.len() > 0 {
        lemma_read_write(digits.drop_last());
        lemma_hex_value_bounds(digits.drop_last());
        let c = digits.last();
        assert(is_upper_digit(c));
        let d: int = digit_value(c).unwrap();
        assert(upper_digit(d) == c);
        let high = hex_value(digits.drop_last());
        assert((16 * high + d) / 16 == high);
        assert((16 * high + d) % 16 == d);
        assert(digits.drop_last().push(c) == digits);
    }
}

/// The value of the base-16 digit `c`.
pub fn digit_of(c: char) -> (r: Option<u8>)
    ensures
        match digit_value(c) {
            Some(d) => r == Some(d as u8) && d < 16,
            None => r is None,
        },
{
    if c >= '0' && c <= '9' {
        Some(((c as u32) - 48) as u8)
    } else if c >= 'a' && c <= 'f' {
        Some(((c as u32) - 87) as u8)
    } else if c >= 'A' && c <= 'F' {
        Some(((c as u32) - 55) as u8)
    } else {
        None
    }
}

/// Reads a 32-bit number written in base 16.
pub fn parse_hex_u32(raw: &[char]) -> (r: Option<u32>)
    ensures
        r == hex_u32(raw@),
{
    let first: usize = if raw.len() > 0 && raw[0] == '+' {
        1
    } else {
        0
    };
    if first == raw.len() {
        return None;
    }
    let ghost digits = raw@.skip(first as int);
    let mut acc: u64 = 0;
    let mut i: usize = first;
    proof {
        assert(first == 0 ==> digits == raw@);
    }
    while i < raw.len()
        invariant
            first <= i <= raw.len(),
            digits == raw@.skip(first as int),
            digits == if raw@.len() > 0 && raw@[0] == '+' {
                raw@.skip(1)
            } else {
                raw@
            },
            all_hex(digits.take(i - first)),
            acc == hex_value(digits.take(i - first)),
            acc <= u32::MAX,
        decreases raw.len() - i,
    {
        let ghost seen = digits.take(i - first);
        let ghost next = digits.take(i - first + 1);
        proof {
            assert(next.drop_last() == seen);
            assert(next.last() == raw@[i as int]);
        }
        match digit_of(raw[i]) {
            None => {
                proof {
                    assert(digit_value(digits[i - first]) is None);
                }
                return None;
            },
            Some(d) => {
                acc = acc * 16 + d as u64;
                proof {
                    assert forall|k: int| 0 <= k < next.len() implies digit_value(
                        #[trigger] next[k],
                    ) is Some by {
                        if k < seen.len() {
                            assert(next[k] == seen[k]);
                        }
                    }
                }
                if acc > u32::MAX as u64 {
                    proof {
                        lemma_hex_value_monotonic(digits, i - first + 1);
                    }
                    return None;
                }
            },
        }
        i += 1;
    }
    proof {
        assert(digits.take(raw@.len() - first) == digits);
    }
    Some(acc as u32)
}

/// The upper-case digit for `d`.
fn upper_digit_of(d: u8) -> (c: char)
    requires
        d < 16,
    ensures
        c == upper_digit(d as int),
{
    if d < 10 {
        (d + 48) as char
    } else {
        (d + 55) as char
    }
}

/// Appends the last `width` digits of `value` to `out`.
pub fn push_hex_digits(out: &mut String, value: u32, width: u32)
    ensures
        final(out)@ == old(out)@ + hex_digits(value as nat, width as nat),
    decreases width,
{
    if width > 0 {
        push_hex_digits(out, value / 16, width - 1);
        out.push(upper_digit_of((value % 16) as u8));
    }
}

/// Writes `address` with eight upper-case digits.
pub fn format_address(address: u32) -> (s: String)
    ensures
        s@ == upper_hex(address),
{
    let mut s = String::new();
    push_hex_digits(&mut s, address, 8);
    s
}

} // verus!
