//! Base-58 text: the alphabet, the arithmetic that turns a big-endian byte
//! string into base-58 digits one input byte at a time, and the encoder for
//! payloads that fit a local buffer.

use crate::numeral::{
    be_value, lemma_be_value_bound, lemma_be_value_leading_zeros, lemma_be_value_prefix_le,
    lemma_be_value_take, lemma_pow256_values, lemma_pow58_46, pow256, pow58, zeros,
};
use crate::text::is_ascii_bytes;
use vstd::prelude::*;

verus! {

/// The character that stands for the base-58 digit `digit`: the digits and
/// letters in their order, without `0`, `I`, `O` and `l`.
pub open spec fn base58_char(digit: u8) -> u8 {
    if digit < 9 {
        ('1' as u8 + digit) as u8
    } else if digit < 17 {
        ('A' as u8 + (digit - 9)) as u8
    } else if digit < 22 {
        ('J' as u8 + (digit - 17)) as u8
    } else if digit < 33 {
        ('P' as u8 + (digit - 22)) as u8
    } else if digit < 44 {
        ('a' as u8 + (digit - 33)) as u8
    } else {
        ('m' as u8 + (digit - 44)) as u8
    }
}

/// Base-58 digits of `n`, least significant first; empty for zero.
pub open spec fn digits58_le(n: nat) -> Seq<u8>
    decreases n,
{
    if n == 0 {
        Seq::empty()
    } else {
        seq![(n % 58) as u8] + digits58_le(n / 58)
    }
}

/// `n` in base-58 text, most significant digit first; empty for zero.
pub open spec fn base58_text(n: nat) -> Seq<u8> {
    let digits = digits58_le(n);
    Seq::new(digits.len(), |i: int| base58_char(digits[digits.len() - 1 - i]))
}

/// Number of zero bytes at the front of `s`.
pub open spec fn leading_zeros(s: Seq<u8>) -> nat
    decreases s.len(),
{
    if s.len() > 0 && s[0] == 0 {
        1 + leading_zeros(s.skip(1))
    } else {
        0
    }
}

/// The standard base-58 encoding of `payload`: one `'1'` for each leading
/// zero byte, then the payload's value in base-58 text.
pub open spec fn base58_encoding(payload: Seq<u8>) -> Seq<u8> {
    Seq::new(leading_zeros(payload), |i: int| '1' as u8) + base58_text(be_value(payload))
}

/// One pass of "times 256, plus carry" over base-58 digits that are stored
/// least significant first: the digits after the pass, and the carry that
/// is left over behind the last of them.
pub open spec fn carry_pass(digits: Seq<u8>, carry: nat) -> (Seq<u8>, nat)
    decreases digits.len(),
{
    if digits.len() == 0 {
        (Seq::empty(), carry)
    } else {
        let before = carry_pass(digits.drop_last(), carry);
        let t = before.1 + digits.last() as nat * 256;
        (before.0.push((t % 58) as u8), t / 58)
    }
}

/// Whether every byte of `digits` is a base-58 digit.
pub open spec fn all_digits58(digits: Seq<u8>) -> bool {
    forall|i: int| 0 <= i < digits.len() ==> digits[i] < 58
}

/// A pass keeps the number of digits and leaves base-58 digits; over base-58
/// digits, a carry below 256 leaves a carry below 256.
pub proof fn lemma_carry_pass_shape(digits: Seq<u8>, carry: nat)
    ensures
        carry_pass(digits, carry).0.len() == digits.len(),
        all_digits58(carry_pass(digits, carry).0),
        carry < 256 && all_digits58(digits) ==> carry_pass(digits, carry).1 < 256,
    decreases digits.len(),
{
    if digits.len() > 0 {
        lemma_carry_pass_shape(digits.drop_last(), carry);
        if all_digits58(digits) {
            assert forall|i: int| 0 <= i < digits.drop_last().len() implies digits.drop_last()[i]
                < 58 by {
                assert(digits.drop_last()[i] == digits[i]);
            }
        }
    }
}

/// The pass over a prefix, extended by the next digit.
pub proof fn lemma_carry_pass_take(digits: Seq<u8>, carry: nat, i: int)
    requires
        0 <= i < digits.len(),
    ensures
        ({
            let before = carry_pass(digits.take(i), carry);
            let t = before.1 + digits[i] as nat * 256;
            carry_pass(digits.take(i + 1), carry) == (before.0.push((t % 58) as u8), t / 58)
        }),
{
    assert(digits.take(i + 1).drop_last() =~= digits.take(i));
}

/// A pass over `a + b` is a pass over `a` followed by a pass over `b` that
/// starts with the carry left by the first.
pub proof fn lemma_carry_pass_concat(a: Seq<u8>, b: Seq<u8>, carry: nat)
    ensures
        ({
            let first = carry_pass(a, carry);
            let second = carry_pass(b, first.1);
            carry_pass(a + b, carry) == (first.0 + second.0, second.1)
        }),
    decreases b.len(),
{
    let first = carry_pass(a, carry);
    if b.len() == 0 {
        assert(a + b =~= a);
        assert(first.0 + Seq::<u8>::empty() =~= first.0);
    } else {
        lemma_carry_pass_concat(a, b.drop_last(), carry);
        assert((a + b).drop_last() =~= a + b.drop_last());
        let second = carry_pass(b.drop_last(), first.1);
        let t = second.1 + b.last() as nat * 256;
        assert((first.0 + second.0).push((t % 58) as u8) =~= first.0 + second.0.push(
            (t % 58) as u8,
        ));
    }
}

/// The pass turns the digits of `n` into the low digits of `256 * n + carry`;
/// the digits of the carry that is left over are the digits above them.
pub proof fn lemma_carry_pass_digits(n: nat, carry: nat)
    ensures
        ({
            let pass = carry_pass(digits58_le(n), carry);
            pass.0 + digits58_le(pass.1) == digits58_le(256 * n + carry)
        }),
    decreases n,
{
    let digits = digits58_le(n);
    if n == 0 {
        assert(carry_pass(digits, carry).0 + digits58_le(carry) =~= digits58_le(carry));
    } else {
        let low = seq![(n % 58) as u8];
        let rest = digits58_le(n / 58);
        let t = carry + (n % 58) * 256;
        assert(low.drop_last() =~= Seq::<u8>::empty());
        assert(carry_pass(low, carry) == (seq![(t % 58) as u8], t / 58)) by {
            reveal_with_fuel(carry_pass, 2);
            assert(Seq::<u8>::empty().push((t % 58) as u8) =~= seq![(t % 58) as u8]);
        }
        lemma_carry_pass_concat(low, rest, carry);
        lemma_carry_pass_digits(n / 58, t / 58);
        let second = carry_pass(rest, t / 58);
        let m = 256 * n + carry;
        assert(m == 58 * (256 * (n / 58)) + t);
        assert(m % 58 == t % 58 && m / 58 == 256 * (n / 58) + t / 58);
        assert(m > 0);
        assert((seq![(t % 58) as u8] + second.0) + digits58_le(second.1) =~= seq![
            (t % 58) as u8,
        ] + (second.0 + digits58_le(second.1)));
    }
}

/// The digits of a number are base-58 digits.
pub proof fn lemma_digits58_bound(n: nat)
    ensures
        all_digits58(digits58_le(n)),
    decreases n,
{
    if n > 0 {
        lemma_digits58_bound(n / 58);
    }
}

/// A larger number has at least as many digits.
pub proof fn lemma_digits58_len_monotonic(n: nat, m: nat)
    requires
        n <= m,
    ensures
        digits58_le(n).len() <= digits58_le(m).len(),
    decreases n,
{
    if n > 0 {
        lemma_digits58_len_monotonic(n / 58, m / 58);
    }
}

/// The leading zeros of a string that starts with `z` zero bytes and then
/// ends or goes on with another byte.
pub proof fn lemma_leading_zeros_count(s: Seq<u8>, z: int)
    requires
        0 <= z <= s.len(),
        forall|i: int| 0 <= i < z ==> s[i] == 0,
        z == s.len() || s[z] != 0,
    ensures
        leading_zeros(s) == z,
    decreases z,
{
    if z > 0 {
        lemma_leading_zeros_count(s.skip(1), z - 1);
    }
}

/// A string that starts with `z` zero bytes has at least `z` leading zeros.
pub proof fn lemma_leading_zeros_at_least(s: Seq<u8>, z: int)
    requires
        0 <= z <= s.len(),
        forall|i: int| 0 <= i < z ==> s[i] == 0,
    ensures
        leading_zeros(s) >= z,
    decreases z,
{
    if z > 0 {
        lemma_leading_zeros_at_least(s.skip(1), z - 1);
    }
}

/// A number below 58 to the power `k` has at most `k` base-58 digits.
pub proof fn lemma_digits58_len_bound(n: nat, k: int)
    requires
        k >= 0,
        n < pow58(k),
    ensures
        digits58_le(n).len() <= k,
    decreases n,
{
    if n > 0 {
        lemma_digits58_len_bound(n / 58, k - 1);
    }
}

/// The leading zeros of a string are zero bytes, and no more than the string has.
pub proof fn lemma_leading_zeros_are_zero(s: Seq<u8>)
    ensures
        leading_zeros(s) <= s.len(),
        forall|i: int| 0 <= i < leading_zeros(s) ==> s[i] == 0,
    decreases s.len(),
{
    if s.len() > 0 && s[0] == 0 {
        lemma_leading_zeros_are_zero(s.skip(1));
        assert forall|i: int| 0 <= i < leading_zeros(s) implies s[i] == 0 by {
            if i > 0 {
                assert(s.skip(1)[i - 1] == s[i]);
            }
        }
    }
}

/// Up to 33 bytes, a power of 256 stays below the power of 58 that is 13 higher.
proof fn lemma_pow256_below_pow58(m: int)
    requires
        0 <= m <= 33,
    ensures
        pow256(m) <= pow58(13 + m),
    decreases 33 - m,
{
    if m == 33 {
        lemma_pow256_values();
        lemma_pow58_46();
    } else {
        lemma_pow256_below_pow58(m + 1);
    }
}

/// The base-58 encoding of a payload of 33 bytes, such as the prefix and the
/// hash of an address, has at most 46 characters.
pub proof fn lemma_encoding_fits(payload: Seq<u8>)
    requires
        payload.len() == 33,
    ensures
        base58_encoding(payload).len() <= 46,
{
    let z = leading_zeros(payload);
    lemma_leading_zeros_are_zero(payload);
    let rest = payload.skip(z as int);
    assert(payload =~= zeros(z) + rest);
    lemma_be_value_leading_zeros(z, rest);
    lemma_be_value_bound(rest);
    lemma_pow256_below_pow58(33 - z);
    lemma_digits58_len_bound(be_value(payload), 46 - z);
}

/// Base-58 text is ASCII.
pub proof fn lemma_base58_ascii(payload: Seq<u8>)
    ensures
        is_ascii_bytes(base58_text(be_value(payload))),
        is_ascii_bytes(base58_encoding(payload)),
{
    lemma_digits58_bound(be_value(payload));
}

/// For a payload that does not begin with a zero byte, the plain base-58
/// text of its value is its standard encoding.
pub proof fn lemma_text_is_encoding(payload: Seq<u8>)
    requires
        payload.len() == 0 || payload[0] != 0,
    ensures
        base58_encoding(payload) == base58_text(be_value(payload)),
{
    assert(leading_zeros(payload) == 0);
    assert(base58_encoding(payload) =~= base58_text(be_value(payload)));
}

/// The character that stands for a base-58 digit.
pub fn alphabet_char(digit: u8) -> (c: u8)
    requires
        digit < 58,
    ensures
        c == base58_char(digit),
{
    if digit < 9 {
        '1' as u8 + digit
    } else if digit < 17 {
        'A' as u8 + (digit - 9)
    } else if digit < 22 {
        'J' as u8 + (digit - 17)
    } else if digit < 33 {
        'P' as u8 + (digit - 22)
    } else if digit < 44 {
        'a' as u8 + (digit - 33)
    } else {
        'm' as u8 + (digit - 44)
    }
}

/// Runs one pass of "times 256, plus carry" over the first `len` bytes of
/// `digits` and returns the carry that is left over.
pub fn carry_pass_in_place(digits: &mut [u8], len: usize, carry: usize) -> (left: usize)
    requires
        len <= old(digits)@.len(),
        carry < 256,
        all_digits58(old(digits)@.take(len as int)),
    ensures
        final(digits)@.len() == old(digits)@.len(),
        (final(digits)@.take(len as int), left as nat) == carry_pass(
            old(digits)@.take(len as int),
            carry as nat,
        ),
        final(digits)@.skip(len as int) == old(digits)@.skip(len as int),
        left < 256,
{
    let ghost before = digits@.take(len as int);
    let mut left: usize = carry;
    let mut j: usize = 0;
    assert(before.take(0) =~= Seq::<u8>::empty());
    assert(digits@.take(0) =~= Seq::<u8>::empty());
    while j < len
        invariant
            j <= len <= digits@.len(),
            digits@.len() == old(digits)@.len(),
            before == old(digits)@.take(len as int),
            all_digits58(before),
            left < 256,
            (digits@.take(j as int), left as nat) == carry_pass(before.take(j as int), carry as nat),
            forall|k: int| j <= k < digits@.len() ==> digits@[k] == old(digits)@[k],
        decreases len - j,
    {
        let ghost prev = digits@;
        assert(before[j as int] == prev[j as int]);
        let t: usize = left + (digits[j] as usize) * 256;
        digits[j] = (t % 58) as u8;
        left = t / 58;
        proof {
            lemma_carry_pass_take(before, carry as nat, j as int);
            assert(digits@.take(j + 1) =~= prev.take(j as int).push((t % 58) as u8));
        }
        j += 1;
    }
    assert(before.take(len as int) =~= before);
    assert(digits@.skip(len as int) =~= old(digits)@.skip(len as int));
    left
}

/// Writes the standard base-58 encoding of `input` to the front of `output`
/// and returns it: one `'1'` for each leading zero byte, then the value in
/// base-58 text. Returns `None` when `output` is shorter than the encoding.
pub fn base58_encode<'a>(input: &[u8], output: &'a mut [u8]) -> (text: Option<&'a [u8]>)
    ensures
        text is Some <==> base58_encoding(input@).len() <= old(output)@.len(),
        text matches Some(t) ==> t@ == base58_encoding(input@) && final(output)@.take(
            t@.len() as int,
        ) == t@,
        final(output)@.len() == old(output)@.len(),
{
    let total: usize = output.len();
    let n: usize = input.len();
    let ghost value = be_value(input@);
    let mut index: usize = 0;
    let mut i: usize = 0;
    assert(input@.take(0) =~= Seq::<u8>::empty());
    assert(output@.take(0) =~= digits58_le(0));
    while i < n
        invariant
            n == input@.len(),
            total == output@.len(),
            output@.len() == old(output)@.len(),
            i <= n,
            index <= total,
            value == be_value(input@),
            output@.take(index as int) == digits58_le(be_value(input@.take(i as int))),
        decreases n - i,
    {
        let ghost stored = be_value(input@.take(i as int));
        let ghost next = be_value(input@.take(i + 1));
        proof {
            lemma_be_value_take(input@, i as int);
            lemma_digits58_bound(stored);
            lemma_carry_pass_digits(stored, input@[i as int] as nat);
            lemma_carry_pass_shape(digits58_le(stored), input@[i as int] as nat);
            lemma_be_value_prefix_le(input@, i + 1);
            lemma_digits58_len_monotonic(next, value);
        }
        let mut carry: usize = carry_pass_in_place(output, index, input[i] as usize);
        while carry > 0
            invariant
                total == output@.len(),
                output@.len() == old(output)@.len(),
                index <= total,
                carry < 256,
                output@.take(index as int) + digits58_le(carry as nat) == digits58_le(next),
                digits58_le(next).len() <= digits58_le(value).len(),
                leading_zeros(input@) + digits58_le(value).len() == base58_encoding(input@).len(),
            decreases carry,
        {
            if index == total {
                return None;
            }
            let ghost prev = output@;
            output[index] = (carry % 58) as u8;
            proof {
                assert(output@.take(index + 1) =~= prev.take(index as int).push(
                    (carry % 58) as u8,
                ));
                assert(prev.take(index as int).push((carry % 58) as u8) + digits58_le(
                    (carry / 58) as nat,
                ) =~= prev.take(index as int) + digits58_le(carry as nat));
            }
            index += 1;
            carry /= 58;
        }
        assert(output@.take(index as int) + digits58_le(0) =~= output@.take(index as int));
        i += 1;
    }
    assert(input@.take(n as int) =~= input@);
    let ghost digits = digits58_le(value);
    let count: usize = index;
    let mut z: usize = 0;
    while z < n && input[z] == 0
        invariant
            n == input@.len(),
            total == output@.len(),
            output@.len() == old(output)@.len(),
            z <= n,
            index == count + z,
            index <= total,
            digits.len() == count,
            forall|k: int| 0 <= k < z ==> input@[k] == 0,
            output@.take(count as int) == digits,
            forall|k: int| count <= k < index ==> output@[k] == 0,
            leading_zeros(input@) + digits.len() == base58_encoding(input@).len(),
        decreases n - z,
    {
        if index == total {
            proof {
                lemma_leading_zeros_at_least(input@, z + 1);
            }
            return None;
        }
        let ghost prev = output@;
        output[index] = 0u8;
        assert(output@.take(count as int) =~= prev.take(count as int));
        index += 1;
        z += 1;
    }
    proof {
        lemma_leading_zeros_count(input@, z as int);
        lemma_digits58_bound(value);
    }
    let ghost laid = output@.take(index as int);
    assert(forall|k: int| 0 <= k < count ==> laid[k] == digits[k]) by {
        assert(forall|k: int| 0 <= k < count ==> output@.take(count as int)[k] == output@[k]);
    }
    let mut lo: usize = 0;
    let mut hi: usize = index;
    while lo < hi
        invariant
            total == output@.len(),
            output@.len() == old(output)@.len(),
            lo <= index <= total,
            hi <= index,
            lo + hi == index,
            laid.len() == index,
            forall|k: int| 0 <= k < index ==> laid[k] < 58,
            forall|k: int| 0 <= k < lo ==> output@[k] == base58_char(laid[index - 1 - k]),
            forall|k: int| hi <= k < index ==> output@[k] == base58_char(laid[index - 1 - k]),
            forall|k: int| lo <= k < hi ==> output@[k] == laid[k],
        decreases hi,
    {
        hi -= 1;
        assert(output@[lo as int] == laid[lo as int] && output@[hi as int] == laid[hi as int]);
        assert(laid[lo as int] < 58 && laid[hi as int] < 58);
        let a: u8 = alphabet_char(output[lo]);
        let b: u8 = alphabet_char(output[hi]);
        output[lo] = b;
        output[hi] = a;
        lo += 1;
    }
    proof {
        assert(forall|k: int| 0 <= k < index ==> output@[k] == base58_char(laid[index - 1 - k]));
        assert(output@.subrange(0, index as int) =~= base58_encoding(input@));
        assert(output@.take(index as int) =~= base58_encoding(input@));
    }
    Some(&output[0..index])
}

} // verus!
