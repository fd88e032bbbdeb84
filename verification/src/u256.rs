//! The chain's compact encoding of unsigned integers of up to 256 bits, and
//! its renderings as text.

use crate::bytes::{copy_into, move_to_front};
use crate::decode::{Buffer, DecodeStage};
use crate::numeral::{
    be_value, decimal_text, digits10, lemma_be_value_bound, lemma_be_value_first_bound,
    lemma_be_value_leading_zeros, lemma_be_value_of_four, lemma_be_value_prefix_le, lemma_be_value_take,
    lemma_be_value_zero_iff, lemma_digits10_len_bound, lemma_pow10_78, lemma_pow256_monotonic,
    lemma_pow256_values, pow256, zeros,
};
use crate::text::{is_ascii_bytes, lemma_decimal_text_ascii};
use vstd::prelude::*;

verus! {

/// Mask of the payload bits in the leading byte of a fixed-size encoding.
pub const MASK_MODE: u8 = 0x3f;

/// Mask of the bits in the leading byte that select the length class.
pub const MASK_REST: u8 = 0xc0;

/// Bytes of storage behind one value: the leading byte and 32 payload bytes.
pub const STORAGE_SIZE: usize = 33;

/// Length class of an encoding, read from the top two bits of its leading byte.
pub open spec fn length_class(byte: u8) -> nat {
    (byte / 64) as nat
}

/// Whether the leading byte announces one of the three fixed-size encodings.
pub open spec fn header_is_fixed(byte: u8) -> bool {
    length_class(byte) != 3
}

/// Total length in bytes, leading byte included, that a leading byte announces.
pub open spec fn header_length(byte: u8) -> nat {
    if length_class(byte) == 0 {
        1
    } else if length_class(byte) == 1 {
        2
    } else if length_class(byte) == 2 {
        4
    } else {
        (byte % 64 + 5) as nat
    }
}

/// Whether the announced length fits the storage of a value.
pub open spec fn header_is_valid(byte: u8) -> bool {
    header_length(byte) <= STORAGE_SIZE
}

/// The two masks split a leading byte into its length class and its low six bits.
pub proof fn lemma_header_masks(byte: u8)
    by (bit_vector)
    ensures
        byte & 0xc0 == (byte / 64) * 64,
        byte & 0x3f == byte % 64,
{
}

/// Total length of the encoding that starts with `byte`.
pub fn decode_length(byte: u8) -> (length: usize)
    ensures
        length == header_length(byte),
        1 <= length <= 68,
{
    let class: u8 = byte & MASK_REST;
    proof {
        lemma_header_masks(byte);
    }
    if class == 0x00 {
        1
    } else if class == 0x40 {
        2
    } else if class == 0x80 {
        4
    } else {
        (byte & MASK_MODE) as usize + 5
    }
}

/// Whether the encoding that starts with `byte` has one of the fixed sizes.
pub fn is_fixed_size(byte: u8) -> (fixed: bool)
    ensures
        fixed == header_is_fixed(byte),
{
    proof {
        lemma_header_masks(byte);
    }
    byte & MASK_REST != MASK_REST
}

/// Whether the length that `byte` announces fits the storage of a value.
pub fn is_valid_header(byte: u8) -> (valid: bool)
    ensures
        valid == header_is_valid(byte),
{
    decode_length(byte) <= STORAGE_SIZE
}

/// The bytes of an encoding that carry its magnitude, most significant first:
/// the low six bits of the leading byte and what follows for a fixed size,
/// the bytes after the leading byte otherwise.
pub open spec fn magnitude_bytes(bytes: Seq<u8>) -> Seq<u8> {
    let length = header_length(bytes[0]) as int;
    if header_is_fixed(bytes[0]) {
        seq![(bytes[0] % 64) as u8] + bytes.subrange(1, length)
    } else {
        bytes.subrange(1, length)
    }
}

/// The integer that an encoding stands for.
pub open spec fn encoded_value(bytes: Seq<u8>) -> nat {
    be_value(magnitude_bytes(bytes))
}

/// An unsigned integer of up to 256 bits in its compact encoding. The bytes
/// after the encoding's length are not part of the value.
#[derive(Debug)]
pub struct U256 {
    pub bytes: [u8; 33],
}

impl Default for U256 {
    fn default() -> (r: Self)
        ensures
            r.bytes@ == zeros(33),
    {
        let r = Self { bytes: [0u8; 33] };
        assert(r.bytes@ =~= zeros(33));
        r
    }
}

impl PartialEq for U256 {
    fn eq(&self, other: &Self) -> (r: bool) {
        let mut i: usize = 0;
        while i < 33
            invariant
                i <= 33,
                forall|j: int| 0 <= j < i ==> self.bytes@[j] == other.bytes@[j],
            decreases 33 - i,
        {
            if self.bytes[i] != other.bytes[i] {
                return false;
            }
            i += 1;
        }
        assert(self.bytes@ =~= other.bytes@);
        true
    }
}

impl vstd::std_specs::cmp::PartialEqSpecImpl for U256 {
    open spec fn obeys_eq_spec() -> bool {
        true
    }

    open spec fn eq_spec(&self, other: &Self) -> bool {
        self.bytes@ == other.bytes@
    }
}

/// `s` without its trailing `'0'` characters; the first character always stays.
pub open spec fn trim_zeros(s: Seq<u8>) -> Seq<u8>
    decreases s.len(),
{
    if s.len() > 1 && s.last() == 48 {
        trim_zeros(s.drop_last())
    } else {
        s
    }
}

/// `s` without its trailing `'0'` characters and without the `'.'` that this
/// may leave at the end.
pub open spec fn trimmed(s: Seq<u8>) -> Seq<u8> {
    let t = trim_zeros(s);
    if t.len() > 0 && t.last() == 46 {
        t.drop_last()
    } else {
        t
    }
}

/// Number of characters before the decimal point when `n` is written with
/// `decimals` implied decimal places.
pub open spec fn point_index(n: nat, decimals: nat) -> nat {
    if decimal_text(n).len() > decimals {
        (decimal_text(n).len() - decimals) as nat
    } else {
        1
    }
}

/// `n` written with `decimals` implied decimal places, all of them shown:
/// the point is spliced into the digits, or the digits are padded with
/// zeros on the left up to `"0."`.
pub open spec fn fixed_point_text(n: nat, decimals: nat) -> Seq<u8> {
    let digits = decimal_text(n);
    if decimals == 0 {
        digits
    } else if digits.len() > decimals {
        let point = digits.len() - decimals;
        digits.take(point) + seq![46u8] + digits.skip(point)
    } else {
        seq![48u8, 46u8] + Seq::new((decimals - digits.len()) as nat, |i: int| 48u8) + digits
    }
}

/// `n` written with `decimals` implied decimal places, of which at most
/// `places` are shown; trailing zeros and a trailing point are dropped.
pub open spec fn scaled_text(n: nat, decimals: nat, places: nat) -> Seq<u8> {
    if decimals == 0 {
        decimal_text(n)
    } else {
        let shown = if places < decimals {
            places
        } else {
            decimals
        };
        trimmed(
            fixed_point_text(n, decimals).take((point_index(n, decimals) + 1 + shown) as int),
        )
    }
}

/// Decimal places of the native unit.
pub const ALPH_DECIMALS: usize = 18;

/// Decimal places of the native unit that a rendering shows.
pub const DECIMAL_PLACES: usize = 6;

/// The smallest amount that renders with a nonzero digit: a millionth of the
/// native unit.
pub const _1000_NANO_ALPH: u64 = 1_000_000_000_000;

/// The unit suffix, `" ALPH"`.
pub open spec fn alph_postfix() -> Seq<u8> {
    seq![' ' as u8, 'A' as u8, 'L' as u8, 'P' as u8, 'H' as u8]
}

/// The placeholder for a positive amount below a millionth, `"<0.000001"`.
pub open spec fn below_threshold_text() -> Seq<u8> {
    seq![
        '<' as u8, '0' as u8, '.' as u8, '0' as u8, '0' as u8, '0' as u8, '0' as u8, '0' as u8,
        '1' as u8,
    ]
}

/// Rendering of an amount of `n` base units in the native unit.
pub open spec fn alph_text(n: nat) -> Seq<u8> {
    if n == 0 {
        seq![48u8] + alph_postfix()
    } else if n < _1000_NANO_ALPH {
        below_threshold_text() + alph_postfix()
    } else {
        scaled_text(n, ALPH_DECIMALS as nat, DECIMAL_PLACES as nat) + alph_postfix()
    }
}

/// Whether a buffer of `len` bytes is accepted for the rendering of `n` in the
/// native unit. Zero and the placeholder need their own length; any other
/// amount needs room for the largest supply, 28 characters and the suffix,
/// and for its own digits with the point.
pub open spec fn alph_fits(n: nat, len: nat) -> bool {
    if n == 0 {
        len >= 6
    } else if n < _1000_NANO_ALPH {
        len >= 14
    } else {
        len >= 33 && fixed_point_text(n, ALPH_DECIMALS as nat).len() <= len
    }
}

/// Whether a value with storage `bytes`, decoded up to `stage`, can go on
/// with `chunk`: an empty chunk is always taken; else the leading byte, the
/// chunk's first if none is stored yet, must announce a length that fits the
/// storage, and the stage must not lie beyond that length.
pub open spec fn decode_ready(bytes: Seq<u8>, stage: DecodeStage, chunk: Seq<u8>) -> bool {
    if chunk.len() == 0 {
        true
    } else if stage.index == 0 {
        header_is_valid(chunk[0])
    } else {
        header_is_valid(bytes[0]) && stage.index <= header_length(bytes[0])
    }
}

/// One step of decoding: the storage, the stage and the unconsumed rest of
/// the chunk after a value with storage `bytes` at `stage` is given `chunk`.
/// The leading byte is taken first if it is still missing; then as many bytes
/// as the value still lacks, or as the chunk has.
pub open spec fn decode_step(bytes: Seq<u8>, stage: DecodeStage, chunk: Seq<u8>) -> (
    Seq<u8>,
    DecodeStage,
    Seq<u8>,
) {
    if chunk.len() == 0 {
        (bytes, stage, chunk)
    } else {
        let stored = if stage.index == 0 {
            bytes.update(0, chunk[0])
        } else {
            bytes
        };
        let from: int = if stage.index == 0 {
            1
        } else {
            stage.index as int
        };
        let rest = if stage.index == 0 {
            chunk.skip(1)
        } else {
            chunk
        };
        let length = header_length(stored[0]) as int;
        let n: int = if rest.len() < length - from {
            rest.len() as int
        } else {
            length - from
        };
        let filled = stored.take(from) + rest.take(n) + stored.skip(from + n);
        let next = if from + n == length {
            DecodeStage::complete_stage()
        } else {
            DecodeStage { step: stage.step, index: (from + n) as u16 }
        };
        (filled, next, rest.skip(n))
    }
}

/// The storage and the stage after a value is given the chunks one after
/// another, until it is complete.
pub open spec fn decode_chunks(bytes: Seq<u8>, stage: DecodeStage, chunks: Seq<Seq<u8>>) -> (
    Seq<u8>,
    DecodeStage,
)
    decreases chunks.len(),
{
    if chunks.len() == 0 || stage.is_complete() {
        (bytes, stage)
    } else {
        let after = decode_step(bytes, stage, chunks[0]);
        decode_chunks(after.0, after.1, chunks.skip(1))
    }
}

/// The chunks laid end to end.
pub open spec fn joined(chunks: Seq<Seq<u8>>) -> Seq<u8>
    decreases chunks.len(),
{
    if chunks.len() == 0 {
        Seq::empty()
    } else {
        chunks[0] + joined(chunks.skip(1))
    }
}

/// Whether `encoding` is one whole encoded value: as long as its leading byte
/// announces, and no longer than the storage.
pub open spec fn is_encoding(encoding: Seq<u8>) -> bool {
    &&& encoding.len() >= 1
    &&& encoding.len() == header_length(encoding[0])
    &&& header_is_valid(encoding[0])
}

/// The storage of a value that holds `encoding` and zeros after it.
pub open spec fn stored_encoding(encoding: Seq<u8>) -> Seq<u8> {
    encoding + zeros((33 - encoding.len()) as nat)
}

/// A value that holds the first `k` bytes of an encoding and is given the
/// rest of it, in chunks of any size, ends complete and holds the encoding.
proof fn lemma_decode_resumes(encoding: Seq<u8>, k: int, chunks: Seq<Seq<u8>>)
    requires
        is_encoding(encoding),
        0 <= k < encoding.len(),
        joined(chunks) == encoding.skip(k),
    ensures
        decode_chunks(
            stored_encoding(encoding.take(k)),
            DecodeStage { step: 0, index: k as u16 },
            chunks,
        ) == (stored_encoding(encoding), DecodeStage::complete_stage()),
    decreases chunks.len(),
{
    let bytes = stored_encoding(encoding.take(k));
    let stage = DecodeStage { step: 0, index: k as u16 };
    let len = encoding.len() as int;
    if chunks.len() == 0 {
        assert(joined(chunks).len() == 0);
        assert(encoding.skip(k).len() > 0);
    } else {
        let chunk = chunks[0];
        let tail = joined(chunks.skip(1));
        assert(encoding.skip(k) == chunk + tail);
        assert(chunk.len() + tail.len() == len - k);
        assert(forall|i: int| 0 <= i < chunk.len() ==> chunk[i] == (chunk + tail)[i]);
        assert(forall|i: int| 0 <= i < chunk.len() ==> chunk[i] == encoding[k + i]);
        if chunk.len() == 0 {
            assert(tail =~= encoding.skip(k));
            lemma_decode_resumes(encoding, k, chunks.skip(1));
            assert(decode_step(bytes, stage, chunk) == (bytes, stage, chunk));
            assert(decode_chunks(bytes, stage, chunks) == decode_chunks(
                bytes,
                stage,
                chunks.skip(1),
            ));
        } else {
            let after = decode_step(bytes, stage, chunk);
            let done = k + chunk.len();
            if k == 0 {
                assert(chunk[0] == encoding[0]);
            } else {
                assert(bytes[0] == encoding[0]);
            }
            assert(after.0 =~= stored_encoding(encoding.take(done)));
            assert(tail =~= encoding.skip(done)) by {
                assert forall|i: int| 0 <= i < tail.len() implies tail[i] == encoding.skip(
                    done,
                )[i] by {
                    assert(tail[i] == (chunk + tail)[chunk.len() + i]);
                }
            }
            assert(decode_chunks(bytes, stage, chunks) == decode_chunks(
                after.0,
                after.1,
                chunks.skip(1),
            ));
            if done == len {
                assert(encoding.take(done) =~= encoding);
                assert(after.1 == DecodeStage::complete_stage());
                assert(decode_chunks(after.0, after.1, chunks.skip(1)) == (after.0, after.1));
            } else {
                assert(after.1 == DecodeStage { step: 0, index: done as u16 });
                lemma_decode_resumes(encoding, done, chunks.skip(1));
            }
        }
    }
}

/// Decoding does not depend on how the input is cut into chunks: whichever
/// chunks an encoded value arrives in, empty ones included, a zeroed value
/// that is given them in order ends complete, with the same storage as if
/// the encoding had come in one piece, namely the encoding itself with
/// zeros after it. The renderings, which are functions of the storage, agree too.
pub proof fn lemma_decode_any_chunking(encoding: Seq<u8>, chunks: Seq<Seq<u8>>)
    requires
        is_encoding(encoding),
        joined(chunks) == encoding,
    ensures
        decode_chunks(zeros(33), DecodeStage::start_stage(), chunks) == decode_chunks(
            zeros(33),
            DecodeStage::start_stage(),
            seq![encoding],
        ),
        decode_chunks(zeros(33), DecodeStage::start_stage(), chunks) == (
            stored_encoding(encoding),
            DecodeStage::complete_stage(),
        ),
        encoded_value(stored_encoding(encoding)) == encoded_value(encoding),
{
    assert(encoding.take(0) =~= Seq::<u8>::empty());
    assert(stored_encoding(encoding.take(0)) =~= zeros(33));
    assert(encoding.skip(0) =~= encoding);
    lemma_decode_resumes(encoding, 0, chunks);
    let whole = seq![encoding];
    assert(whole.skip(1) =~= Seq::<Seq<u8>>::empty());
    assert(joined(whole.skip(1)) =~= Seq::<u8>::empty());
    assert(joined(whole) =~= encoding);
    lemma_decode_resumes(encoding, 0, whole);
    let stored = stored_encoding(encoding);
    let length = encoding.len() as int;
    assert(stored[0] == encoding[0]);
    assert(stored.subrange(1, length) =~= encoding.subrange(1, length));
}

/// An encoding whose leading byte announces a length within the storage
/// stands for a number of at most 256 bits, whose decimal rendering has at
/// most 78 digits.
pub proof fn lemma_decimal_fits(bytes: Seq<u8>)
    requires
        bytes.len() == 33,
        header_is_valid(bytes[0]),
    ensures
        encoded_value(bytes) < pow256(32),
        decimal_text(encoded_value(bytes)).len() <= 78,
{
    let sig = magnitude_bytes(bytes);
    lemma_be_value_bound(sig);
    lemma_pow256_monotonic(sig.len() as int, 32);
    lemma_pow256_values();
    lemma_pow10_78();
    lemma_digits10_len_bound(encoded_value(bytes), 78);
}

/// A fixed-point rendering is ASCII.
pub proof fn lemma_scaled_text_ascii(n: nat, decimals: nat, places: nat)
    ensures
        is_ascii_bytes(fixed_point_text(n, decimals)),
        is_ascii_bytes(scaled_text(n, decimals, places)),
{
    lemma_decimal_text_ascii(n);
    let full = fixed_point_text(n, decimals);
    assert(is_ascii_bytes(full));
    if decimals > 0 {
        let shown = if places < decimals {
            places
        } else {
            decimals
        };
        let cut = full.take((point_index(n, decimals) + 1 + shown) as int);
        lemma_trim_zeros_drops_zeros(cut);
        let text = trimmed(cut);
        assert(forall|i: int| 0 <= i < text.len() ==> text[i] == full[i]);
    }
}

/// The rendering of an amount in the native unit is ASCII.
pub proof fn lemma_alph_text_ascii(n: nat)
    ensures
        is_ascii_bytes(alph_text(n)),
{
    if n >= _1000_NANO_ALPH {
        let amount = scaled_text(n, ALPH_DECIMALS as nat, DECIMAL_PLACES as nat);
        lemma_scaled_text_ascii(n, ALPH_DECIMALS as nat, DECIMAL_PLACES as nat);
        assert forall|i: int| 0 <= i < alph_text(n).len() implies alph_text(n)[i] < 128 by {
            if i < amount.len() {
                assert(alph_text(n)[i] == amount[i]);
            } else {
                assert(alph_text(n)[i] == alph_postfix()[i - amount.len()]);
            }
        }
    }
}

/// Whether `text` holds a decimal point.
pub open spec fn has_point(text: Seq<u8>) -> bool {
    exists|i: int| 0 <= i < text.len() && text[i] == 46
}

/// Whether a number is written without what can be dropped: it does not end
/// in the point, nor in a zero behind the point.
pub open spec fn is_trimmed(text: Seq<u8>) -> bool {
    &&& text.len() >= 1
    &&& text.last() != 46
    &&& has_point(text) ==> text.last() != 48
}

/// What trimming leaves: a front part of the text. It does not end in a
/// zero, unless that is its first character, and all that trimming zeros
/// drops is zeros.
pub proof fn lemma_trim_zeros_drops_zeros(s: Seq<u8>)
    requires
        s.len() > 0,
    ensures
        1 <= trim_zeros(s).len() <= s.len(),
        trim_zeros(s) == s.take(trim_zeros(s).len() as int),
        trim_zeros(s).len() > 1 ==> trim_zeros(s).last() != 48,
        forall|i: int| trim_zeros(s).len() <= i < s.len() ==> s[i] == 48,
        trimmed(s).len() <= s.len(),
        trimmed(s) == s.take(trimmed(s).len() as int),
    decreases s.len(),
{
    if s.len() > 1 && s.last() == 48 {
        lemma_trim_zeros_drops_zeros(s.drop_last());
        let t = trim_zeros(s.drop_last());
        assert(s.drop_last().take(t.len() as int) =~= s.take(t.len() as int));
        assert forall|i: int| trim_zeros(s).len() <= i < s.len() implies s[i] == 48 by {
            if i < s.len() - 1 {
                assert(s.drop_last()[i] == s[i]);
            }
        }
    } else {
        assert(s.take(s.len() as int) =~= s);
    }
    let t = trim_zeros(s);
    if t.last() == 46 {
        assert(t.drop_last() =~= s.take(t.len() - 1));
    }
}

/// Where a buffer begins with a text, trimming the front of the buffer is
/// trimming the front of the text, and what is left is at the front of the
/// buffer still.
proof fn lemma_trimmed_front(buffer: Seq<u8>, text: Seq<u8>, end: int)
    requires
        1 <= end <= text.len() <= buffer.len(),
        buffer.take(text.len() as int) == text,
    ensures
        buffer.subrange(0, end) == text.take(end),
        trimmed(text.take(end)).len() <= end,
        buffer.take(trimmed(text.take(end)).len() as int) == trimmed(text.take(end)),
{
    assert(forall|i: int| 0 <= i < text.len() ==> buffer.take(text.len() as int)[i] == buffer[i]);
    assert(buffer.subrange(0, end) =~= text.take(end));
    lemma_trim_zeros_drops_zeros(text.take(end));
    let t = trimmed(text.take(end));
    assert(buffer.take(t.len() as int) =~= text.take(end).take(t.len() as int));
}

/// Trailing zeros are always trimmed: a fixed-point rendering never ends in
/// a zero behind the point, nor in the point itself.
pub proof fn lemma_scaled_text_is_trimmed(n: nat, decimals: nat, places: nat)
    requires
        decimals > 0,
    ensures
        is_trimmed(scaled_text(n, decimals, places)),
{
    let digits = decimal_text(n);
    lemma_decimal_text_ascii(n);
    assert(forall|i: int| 0 <= i < digits.len() ==> 48 <= #[trigger] digits[i] <= 57);
    let full = fixed_point_text(n, decimals);
    let point = point_index(n, decimals) as int;
    let shown = if places < decimals {
        places
    } else {
        decimals
    };
    let cut = full.take(point + 1 + shown);
    assert(full.len() == point + 1 + decimals);
    assert(full[point] == 46);
    assert(forall|i: int| 0 <= i < full.len() && i != point ==> 48 <= #[trigger] full[i] <= 57);
    lemma_trim_zeros_drops_zeros(cut);
    let kept = trim_zeros(cut);
    assert(cut[point] == 46);
    assert(kept.len() > point);
    let text = scaled_text(n, decimals, places);
    if kept.len() == point + 1 {
        assert(kept.last() == 46);
        assert(text =~= cut.take(point));
        assert(!has_point(text)) by {
            assert(forall|i: int| 0 <= i < text.len() ==> text[i] == full[i]);
        }
    } else {
        assert(kept.last() == cut[kept.len() - 1]);
        assert(text == kept);
    }
}

/// The amount in every rendering in the native unit is written without what
/// can be dropped: `"1.5"`, not `"1.500000"`, and `"1"`, not `"1.000000"` or `"1."`.
pub proof fn lemma_alph_text_is_trimmed(n: nat)
    ensures
        alph_text(n).len() >= 6,
        alph_text(n).skip(alph_text(n).len() - 5) == alph_postfix(),
        is_trimmed(alph_text(n).take(alph_text(n).len() - 5)),
{
    let text = alph_text(n);
    if n == 0 {
        let amount = seq![48u8];
        assert(text.take(text.len() - 5) =~= amount);
        assert(text.skip(text.len() - 5) =~= alph_postfix());
        assert(!has_point(amount));
    } else if n < _1000_NANO_ALPH {
        assert(text.take(text.len() - 5) =~= below_threshold_text());
        assert(text.skip(text.len() - 5) =~= alph_postfix());
    } else {
        let amount = scaled_text(n, ALPH_DECIMALS as nat, DECIMAL_PLACES as nat);
        lemma_scaled_text_is_trimmed(n, ALPH_DECIMALS as nat, DECIMAL_PLACES as nat);
        assert(text.take(text.len() - 5) =~= amount);
        assert(text.skip(text.len() - 5) =~= alph_postfix());
    }
}

/// Makes room for the decimal point in front of the digit at `point` among
/// the first `len` bytes of `output`, and puts the point there.
fn insert_point(output: &mut [u8], len: usize, point: usize)
    requires
        point <= len < old(output)@.len(),
    ensures
        final(output)@.len() == old(output)@.len(),
        final(output)@.take(len + 1) == old(output)@.take(point as int) + seq![46u8] + old(
            output,
        )@.subrange(point as int, len as int),
{
    let total: usize = output.len();
    let mut k: usize = len;
    while k > point
        invariant
            total == output@.len(),
            output@.len() == old(output)@.len(),
            point <= k <= len < total,
            forall|i: int| 0 <= i < k ==> output@[i] == old(output)@[i],
            forall|i: int| k < i <= len ==> output@[i] == old(output)@[i - 1],
        decreases k,
    {
        output[k] = output[k - 1];
        k -= 1;
    }
    output[point] = 46u8;
    assert(output@.take(len + 1) =~= old(output)@.take(point as int) + seq![46u8] + old(
        output,
    )@.subrange(point as int, len as int));
}

/// Moves the first `len` bytes of `output` to the right and puts `"0."` and
/// `pad` zeros in front of them.
fn pad_fraction(output: &mut [u8], len: usize, pad: usize)
    requires
        2 + pad + len <= old(output)@.len(),
    ensures
        final(output)@.len() == old(output)@.len(),
        final(output)@.take(2 + pad + len) == seq![48u8, 46u8] + Seq::new(
            pad as nat,
            |i: int| 48u8,
        ) + old(output)@.take(len as int),
{
    let total: usize = output.len();
    let mut k: usize = len;
    while k > 0
        invariant
            total == output@.len(),
            output@.len() == old(output)@.len(),
            k <= len,
            2 + pad + len <= total,
            forall|i: int| 0 <= i < k ==> output@[i] == old(output)@[i],
            forall|i: int| k <= i < len ==> output@[2 + pad + i] == old(output)@[i],
        decreases k,
    {
        output[2 + pad + k - 1] = output[k - 1];
        k -= 1;
    }
    let mut i: usize = 0;
    while i < 2 + pad
        invariant
            total == output@.len(),
            output@.len() == old(output)@.len(),
            i <= 2 + pad,
            2 + pad + len <= total,
            forall|j: int| 0 <= j < i ==> output@[j] == (if j == 1 {
                46u8
            } else {
                48u8
            }),
            forall|j: int| 0 <= j < len ==> output@[2 + pad + j] == old(output)@[j],
        decreases 2 + pad - i,
    {
        if i == 1 {
            output[i] = 46u8;
        } else {
            output[i] = 48u8;
        }
        i += 1;
    }
    assert(output@.take(2 + pad + len) =~= seq![48u8, 46u8] + Seq::new(
        pad as nat,
        |i: int| 48u8,
    ) + old(output)@.take(len as int));
}

/// `dest` without its trailing `'0'` characters and without the `'.'` that
/// this may leave at the end. The first character is dropped only if it is
/// that point.
pub fn trim(dest: &[u8]) -> (text: &[u8])
    requires
        dest@.len() > 0,
    ensures
        text@ == trimmed(dest@),
{
    let mut index: usize = dest.len() - 1;
    assert(dest@.take(index + 1) =~= dest@);
    while index != 0 && dest[index] == 48u8
        invariant
            index < dest@.len(),
            trim_zeros(dest@) == trim_zeros(dest@.take(index + 1)),
        decreases index,
    {
        assert(dest@.take(index + 1).drop_last() =~= dest@.take(index as int));
        index -= 1;
    }
    assert(trim_zeros(dest@) == dest@.take(index + 1));
    if dest[index] == 46u8 {
        assert(dest@.take(index + 1).drop_last() =~= dest@.subrange(0, index as int));
        &dest[0..index]
    } else {
        assert(dest@.take(index + 1) =~= dest@.subrange(0, index + 1));
        &dest[0..index + 1]
    }
}

impl U256 {
    /// Whether the leading byte announces a length within the storage.
    pub open spec fn valid(&self) -> bool {
        header_is_valid(self.bytes@[0])
    }

    /// The integer that the encoding stands for.
    pub open spec fn value(&self) -> nat {
        encoded_value(self.bytes@)
    }

    /// Whether the leading byte announces a length within the storage.
    pub fn is_valid(&self) -> (valid: bool)
        ensures
            valid == self.valid(),
    {
        is_valid_header(self.bytes[0])
    }

    /// Zeroes the storage, so that the value can be decoded into again.
    pub fn reset(&mut self)
        ensures
            final(self).bytes@ == zeros(33),
    {
        self.bytes = [0u8; 33];
        assert(self.bytes@ =~= zeros(33));
    }

    /// Length of the encoding, leading byte included.
    pub fn get_length(&self) -> (length: usize)
        ensures
            length == header_length(self.bytes@[0]),
    {
        decode_length(self.bytes[0])
    }

    /// Whether the encoding has one of the three fixed sizes.
    pub fn is_fixed_size(&self) -> (fixed: bool)
        ensures
            fixed == header_is_fixed(self.bytes@[0]),
    {
        is_fixed_size(self.bytes[0])
    }

    /// The value whose storage starts with `bytes` and is zero after them.
    pub fn from_encoded_bytes(bytes: &[u8]) -> (r: Self)
        requires
            bytes@.len() <= 33,
        ensures
            r.bytes@ == bytes@ + zeros((33 - bytes@.len()) as nat),
    {
        let mut bs = [0u8; 33];
        let n: usize = bytes.len();
        let mut i: usize = 0;
        while i < n
            invariant
                n == bytes@.len(),
                n <= 33,
                i <= n,
                forall|j: int| 0 <= j < i ==> bs@[j] == bytes@[j],
                forall|j: int| i <= j < 33 ==> bs@[j] == 0,
            decreases n - i,
        {
            bs[i] = bytes[i];
            i += 1;
        }
        assert(bs@ =~= bytes@ + zeros((33 - bytes@.len()) as nat));
        Self { bytes: bs }
    }

    /// Whether the storage holds the one-byte encoding of zero and nothing else.
    pub fn is_zero(&self) -> (zero: bool)
        ensures
            zero <==> self.bytes@ == zeros(33),
    {
        let mut i: usize = 0;
        while i < 33
            invariant
                i <= 33,
                forall|j: int| 0 <= j < i ==> self.bytes@[j] == 0,
            decreases 33 - i,
        {
            if self.bytes[i] != 0 {
                return false;
            }
            i += 1;
        }
        assert(self.bytes@ =~= zeros(33));
        true
    }

    /// The magnitude of a fixed-size encoding: the low six bits of the leading
    /// byte, followed by the remaining bytes, read as one big-endian number.
    pub fn decode_fixed_size(bytes: &[u8]) -> (value: u32)
        requires
            1 <= bytes@.len() <= 4,
        ensures
            value == be_value(seq![(bytes@[0] % 64) as u8] + bytes@.subrange(1, bytes@.len() as int)),
            value < 0x4000_0000,
    {
        let n: usize = bytes.len();
        proof {
            lemma_header_masks(bytes@[0]);
        }
        let first: u8 = bytes[0] & MASK_MODE;
        let mut result: u32 = first as u32;
        let mut index: usize = 1;
        let ghost all = seq![first] + bytes@.subrange(1, n as int);
        proof {
            assert(all.take(1) =~= seq![first]);
            assert(seq![first].drop_last() =~= Seq::<u8>::empty());
            assert(be_value(seq![first]) == first as nat) by {
                reveal_with_fuel(be_value, 2);
            }
        }
        while index < n
            invariant
                n == bytes@.len(),
                1 <= index <= n <= 4,
                all == seq![first] + bytes@.subrange(1, n as int),
                first < 64,
                result == be_value(all.take(index as int)),
                result < 64 * pow256(index - 1),
            decreases n - index,
        {
            let byte: u8 = bytes[index];
            proof {
                lemma_be_value_take(all, index as int);
                assert(all[index as int] == byte);
                reveal_with_fuel(pow256, 5);
            }
            result = result * 256 + byte as u32;
            index += 1;
        }
        proof {
            assert(all.take(n as int) =~= all);
            reveal_with_fuel(pow256, 5);
        }
        result
    }

    /// The magnitude as 32 big-endian bytes.
    fn magnitude(&self) -> (m: [u8; 32])
        requires
            self.valid(),
        ensures
            be_value(m@) == self.value(),
    {
        let length: usize = self.get_length();
        let mut m = [0u8; 32];
        if self.is_fixed_size() {
            let value: u32 = Self::decode_fixed_size(&self.bytes[0..length]);
            m[28] = (value / 0x100_0000) as u8;
            m[29] = ((value / 0x1_0000) % 256) as u8;
            m[30] = ((value / 0x100) % 256) as u8;
            m[31] = (value % 256) as u8;
            proof {
                assert(self.bytes@.subrange(0, length as int).subrange(1, length as int)
                    =~= self.bytes@.subrange(1, length as int));
                assert(m@ =~= zeros(28) + seq![m@[28], m@[29], m@[30], m@[31]]);
                lemma_be_value_leading_zeros(28, seq![m@[28], m@[29], m@[30], m@[31]]);
                lemma_be_value_of_four(m@[28], m@[29], m@[30], m@[31]);
            }
        } else {
            let start: usize = 33 - length;
            let mut i: usize = 1;
            while i < length
                invariant
                    1 <= i <= length <= 33,
                    start == 33 - length,
                    forall|j: int| 0 <= j < start ==> m@[j] == 0,
                    forall|j: int| 1 <= j < i ==> m@[start + j - 1] == self.bytes@[j],
                decreases length - i,
            {
                m[start + i - 1] = self.bytes[i];
                i += 1;
            }
            proof {
                let sig = self.bytes@.subrange(1, length as int);
                assert(m@ =~= zeros(start as nat) + sig);
                lemma_be_value_leading_zeros(start as nat, sig);
            }
        }
        m
    }

    /// Divides the 32-byte big-endian number by ten in place and returns the
    /// remainder.
    fn divide_by_ten(m: &mut [u8; 32]) -> (rem: u8)
        ensures
            rem < 10,
            be_value(old(m)@) == 10 * be_value(final(m)@) + rem,
    {
        let mut carry: u16 = 0;
        let ghost before = m@;
        let mut i: usize = 0;
        while i < 32
            invariant
                i <= 32,
                carry < 10,
                before.len() == 32,
                forall|j: int| i <= j < 32 ==> m@[j] == before[j],
                be_value(before.take(i as int)) == 10 * be_value(m@.take(i as int)) + carry,
            decreases 32 - i,
        {
            let v: u16 = carry * 256 + m[i] as u16;
            let ghost prev = m@;
            m[i] = (v / 10) as u8;
            carry = v % 10;
            proof {
                lemma_be_value_take(before, i as int);
                lemma_be_value_take(m@, i as int);
                assert(m@.take(i as int) =~= prev.take(i as int));
            }
            i += 1;
        }
        proof {
            assert(before.take(32) =~= before);
            assert(m@.take(32) =~= m@);
        }
        carry as u8
    }

    /// Whether the 32-byte number is zero.
    fn is_zero_magnitude(m: &[u8; 32]) -> (zero: bool)
        ensures
            zero <==> be_value(m@) == 0,
    {
        let mut i: usize = 0;
        while i < 32
            invariant
                i <= 32,
                forall|j: int| 0 <= j < i ==> m@[j] == 0,
            decreases 32 - i,
        {
            if m[i] != 0 {
                proof {
                    lemma_be_value_zero_iff(m@);
                    assert(m@[i as int] != 0);
                }
                return false;
            }
            i += 1;
        }
        proof {
            lemma_be_value_zero_iff(m@);
        }
        true
    }

    /// Writes the decimal rendering of the value, without leading zeros, to the
    /// front of `output` and returns it. Returns `None` when `output` is
    /// shorter than the rendering; 78 bytes hold every value.
    pub fn to_str<'a>(&self, output: &'a mut [u8]) -> (text: Option<&'a [u8]>)
        requires
            self.valid(),
        ensures
            text is Some <==> decimal_text(self.value()).len() <= old(output)@.len(),
            text matches Some(t) ==> t@ == decimal_text(self.value()),
            final(output)@.len() == old(output)@.len(),
            text is Some ==> final(output)@.take(decimal_text(self.value()).len() as int)
                == decimal_text(self.value()),
            old(output)@.len() >= 78 ==> text is Some,
    {
        proof {
            lemma_decimal_fits(self.bytes@);
        }
        let total: usize = output.len();
        if total == 0 {
            return None;
        }
        let mut m = self.magnitude();
        if Self::is_zero_magnitude(&m) {
            output[0] = 48u8;
            assert(output@.take(1) =~= seq![48u8]);
            return Some(&output[0..1]);
        }
        let ghost value = self.value();
        let mut index: usize = total;
        while !Self::is_zero_magnitude(&m)
            invariant
                total == output@.len(),
                output@.len() == old(output)@.len(),
                index <= total,
                value > 0,
                value == self.value(),
                decimal_text(value).len() <= 78,
                digits10(value) == digits10(be_value(m@)) + output@.subrange(
                    index as int,
                    total as int,
                ),
            decreases be_value(m@),
        {
            if index == 0 {
                return None;
            }
            index -= 1;
            let ghost current = be_value(m@);
            let ghost emitted = output@.subrange(index + 1, total as int);
            let digit: u8 = Self::divide_by_ten(&mut m);
            output[index] = 48u8 + digit;
            proof {
                assert(current / 10 == be_value(m@) && current % 10 == digit as nat);
                assert(output@.subrange(index as int, total as int) =~= seq![(48 + digit) as u8]
                    + emitted);
                assert(digits10(current) == digits10(current / 10).push((48 + digit) as u8));
                assert(digits10(current / 10).push((48 + digit) as u8) + emitted =~= digits10(
                    current / 10,
                ) + (seq![(48 + digit) as u8] + emitted));
            }
        }
        let count: usize = total - index;
        proof {
            assert(digits10(0) =~= Seq::<u8>::empty());
            assert(digits10(value) =~= output@.subrange(index as int, total as int));
            assert(output@.subrange(index as int, total as int) =~= output@.skip(index as int));
        }
        move_to_front(output, index);
        assert(output@.subrange(0, count as int) =~= output@.take(count as int));
        Some(&output[0..count])
    }

    /// Writes the value as a fixed-point number with `decimals` implied decimal
    /// places, of which at most `decimal_places` are shown, and drops trailing
    /// zeros and a trailing point. Returns `None` when `output` cannot hold
    /// the number with all its decimals.
    pub fn to_str_with_decimals<'a>(
        &self,
        output: &'a mut [u8],
        decimals: usize,
        decimal_places: usize,
    ) -> (text: Option<&'a [u8]>)
        requires
            self.valid(),
        ensures
            text is Some <==> fixed_point_text(self.value(), decimals as nat).len() <= old(
                output,
            )@.len(),
            text matches Some(t) ==> t@ == scaled_text(
                self.value(),
                decimals as nat,
                decimal_places as nat,
            ) && final(output)@.take(t@.len() as int) == t@,
            final(output)@.len() == old(output)@.len(),
    {
        let total: usize = output.len();
        let ghost digits = decimal_text(self.value());
        let str_length: usize = match self.to_str(output) {
            Some(t) => t.len(),
            None => {
                return None;
            },
        };
        if decimals == 0 {
            assert(output@.subrange(0, str_length as int) =~= output@.take(str_length as int));
            return Some(&output[0..str_length]);
        }
        let shown: usize = if decimal_places < decimals {
            decimal_places
        } else {
            decimals
        };
        let ghost full = fixed_point_text(self.value(), decimals as nat);
        if str_length > decimals {
            if str_length == total {
                return None;
            }
            let point: usize = str_length - decimals;
            insert_point(output, str_length, point);
            let end: usize = point + 1 + shown;
            proof {
                assert(output@.take(str_length + 1) =~= full);
                lemma_trimmed_front(output@, full, end as int);
            }
            return Some(trim(&output[0..end]));
        }
        if total < 2 || decimals > total - 2 {
            return None;
        }
        pad_fraction(output, str_length, decimals - str_length);
        let end: usize = 2 + shown;
        proof {
            assert(output@.take(2 + decimals) =~= full);
            lemma_trimmed_front(output@, full, end as int);
        }
        Some(trim(&output[0..end]))
    }

    /// Whether the value is below a millionth of the native unit.
    pub fn is_less_than_1000_nano(&self) -> (below: bool)
        requires
            self.valid(),
        ensures
            below <==> self.value() < _1000_NANO_ALPH,
    {
        let length: usize = self.get_length();
        let ghost sig = magnitude_bytes(self.bytes@);
        if self.is_fixed_size() {
            proof {
                lemma_be_value_first_bound(sig);
                reveal_with_fuel(pow256, 5);
                assert(sig[0] < 64);
                assert((sig[0] as nat + 1) * pow256(sig.len() - 1) <= 64 * pow256(3))
                    by (nonlinear_arith)
                    requires
                        sig[0] as nat + 1 <= 64,
                        pow256(sig.len() - 1) <= pow256(3),
                ;
            }
            return true;
        }
        let mut value: u64 = 0;
        let mut index: usize = 1;
        assert(sig.take(0) =~= Seq::<u8>::empty());
        while index < length
            invariant
                1 <= index <= length <= 33,
                sig == self.bytes@.subrange(1, length as int),
                self.value() == be_value(sig),
                value == be_value(sig.take(index - 1)),
                value < _1000_NANO_ALPH,
            decreases length - index,
        {
            let byte: u8 = self.bytes[index];
            proof {
                lemma_be_value_take(sig, index - 1);
                assert(sig[index - 1] == byte);
            }
            value = value * 256 + byte as u64;
            if value >= _1000_NANO_ALPH {
                proof {
                    lemma_be_value_prefix_le(sig, index as int);
                    assert(self.value() == be_value(sig));
                }
                return false;
            }
            index += 1;
        }
        assert(sig.take(length - 1) =~= sig);
        true
    }

    /// Writes the value as an amount in the native unit, which has 18 decimal
    /// places, to the front of `output` and returns it: `"0 ALPH"` for zero,
    /// `"<0.000001 ALPH"` for a positive amount below a millionth, and else
    /// the amount with at most six decimal places. Returns `None` when
    /// `output` is too short.
    pub fn to_alph<'a>(&self, output: &'a mut [u8]) -> (text: Option<&'a [u8]>)
        requires
            self.valid(),
        ensures
            text is Some <==> alph_fits(self.value(), old(output)@.len()),
            text matches Some(t) ==> t@ == alph_text(self.value()) && final(output)@.take(
                t@.len() as int,
            ) == t@,
            final(output)@.len() == old(output)@.len(),
    {
        let total: usize = output.len();
        let postfix: [u8; 5] = [' ' as u8, 'A' as u8, 'L' as u8, 'P' as u8, 'H' as u8];
        assert(postfix@ =~= alph_postfix());
        let m = self.magnitude();
        if Self::is_zero_magnitude(&m) {
            if total < 6 {
                return None;
            }
            output[0] = 48u8;
            copy_into(output, 1, &postfix);
            assert(output@.subrange(0, 6) =~= seq![48u8] + alph_postfix());
            assert(output@.take(6) =~= seq![48u8] + alph_postfix());
            return Some(&output[0..6]);
        }
        if self.is_less_than_1000_nano() {
            if total < 14 {
                return None;
            }
            let placeholder: [u8; 9] = [
                '<' as u8, '0' as u8, '.' as u8, '0' as u8, '0' as u8, '0' as u8, '0' as u8,
                '0' as u8, '1' as u8,
            ];
            assert(placeholder@ =~= below_threshold_text());
            copy_into(output, 0, &placeholder);
            copy_into(output, 9, &postfix);
            assert(output@.subrange(0, 14) =~= below_threshold_text() + alph_postfix());
            assert(output@.take(14) =~= below_threshold_text() + alph_postfix());
            return Some(&output[0..14]);
        }
        if total < 33 {
            return None;
        }
        let ghost amount = scaled_text(self.value(), ALPH_DECIMALS as nat, DECIMAL_PLACES as nat);
        let str_length: usize = match self.to_str_with_decimals(
            output,
            ALPH_DECIMALS,
            DECIMAL_PLACES,
        ) {
            Some(t) => t.len(),
            None => {
                return None;
            },
        };
        proof {
            let full = fixed_point_text(self.value(), ALPH_DECIMALS as nat);
            let end = point_index(self.value(), ALPH_DECIMALS as nat) + 1 + 6;
            lemma_trim_zeros_drops_zeros(full.take(end as int));
        }
        copy_into(output, str_length, &postfix);
        let total_size: usize = str_length + 5;
        assert(output@.subrange(0, total_size as int) =~= amount + alph_postfix());
        assert(output@.take(total_size as int) =~= amount + alph_postfix());
        Some(&output[0..total_size])
    }

    /// Number of stages that decoding a value goes through.
    pub fn step_size(&self) -> (steps: u16)
        ensures
            steps == 1,
    {
        1
    }

    /// Takes from `buffer` what the value still lacks: the leading byte first,
    /// if `stage` says that none is stored yet, then payload bytes up to the
    /// length that the leading byte announces. Returns the complete stage when
    /// the last byte is stored, and else the stage with the number of bytes
    /// stored so far.
    pub fn decode(&mut self, buffer: &mut Buffer<'_>, stage: &DecodeStage) -> (next: DecodeStage)
        requires
            decode_ready(old(self).bytes@, *stage, old(buffer).remaining()),
        ensures
            (final(self).bytes@, next, final(buffer).remaining()) == decode_step(
                old(self).bytes@,
                *stage,
                old(buffer).remaining(),
            ),
    {
        let ghost chunk = buffer.remaining();
        let from_index: usize = if stage.index == 0 {
            match buffer.next_byte() {
                Some(byte) => {
                    self.bytes[0] = byte;
                    1
                },
                None => {
                    return *stage;
                },
            }
        } else {
            if buffer.is_empty() {
                return *stage;
            }
            stage.index as usize
        };
        let ghost stored = self.bytes@;
        let ghost rest = buffer.remaining();
        let length: usize = self.get_length();
        let mut idx: usize = 0;
        while idx < length - from_index && !buffer.is_empty()
            invariant
                from_index <= length <= 33,
                idx <= length - from_index,
                idx <= rest.len(),
                buffer.remaining() == rest.skip(idx as int),
                self.bytes@ == stored.take(from_index as int) + rest.take(idx as int)
                    + stored.skip(from_index + idx),
                length == header_length(stored[0]),
                stored.len() == 33,
            decreases length - from_index - idx,
        {
            let ghost before = self.bytes@;
            match buffer.next_byte() {
                Some(byte) => {
                    self.bytes[from_index + idx] = byte;
                },
                None => {},
            }
            idx += 1;
            assert(self.bytes@ =~= stored.take(from_index as int) + rest.take(idx as int)
                + stored.skip(from_index + idx));
            assert(buffer.remaining() =~= rest.skip(idx as int));
        }
        let new_index: usize = from_index + idx;
        if new_index == length {
            DecodeStage::complete()
        } else {
            DecodeStage { step: stage.step, index: new_index as u16 }
        }
    }
}

} // verus!
