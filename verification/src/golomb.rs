//! The Golomb-Rice code: a number is split by `2^p` into a quotient, written
//! in unary, and a remainder, written in `p` binary digits.

use crate::bits::bit_at;
use crate::bits::bits_new;
use crate::bits::bits_push;
use crate::bits::max_bits;
use crate::bits::u64_bit;
use crate::bits::BitBuffer;
use crate::bits::BitReader;
use crate::error::GcsError;
use vstd::arithmetic::div_mod::lemma_div_denominator;
use vstd::arithmetic::div_mod::lemma_div_is_ordered_by_denominator;
use vstd::arithmetic::div_mod::lemma_div_pos_is_pos;
use vstd::arithmetic::div_mod::lemma_fundamental_div_mod;
use vstd::arithmetic::div_mod::lemma_fundamental_div_mod_converse;
use vstd::arithmetic::div_mod::lemma_mod_bound;
use vstd::arithmetic::power2::lemma2_to64;
use vstd::arithmetic::power2::lemma2_to64_rest;
use vstd::arithmetic::power2::lemma_pow2_pos;
use vstd::arithmetic::power2::lemma_pow2_strictly_increases;
use vstd::arithmetic::power2::lemma_pow2_unfold;
use vstd::arithmetic::power2::pow2;
use vstd::bits::lemma_u64_shl_is_mul;
use vstd::prelude::*;

verus! {

/// The exponents that the code is defined for: at least one remainder bit,
/// and `2^p` within 64 bits.
pub open spec fn valid_exponent(p: nat) -> bool {
    1 <= p <= 63
}

/// `q` one-bits and the zero-bit that ends them.
pub open spec fn unary(q: nat) -> Seq<bool> {
    Seq::new(q, |i: int| true).push(false)
}

/// The lowest `width` binary digits of `rem`, most significant first.
pub open spec fn binary(rem: nat, width: nat) -> Seq<bool> {
    Seq::new(width, |j: int| bit_at(rem, (width - 1 - j) as nat))
}

/// The code word of `value`: its quotient by `2^p` in unary, then its
/// remainder in `p` bits.
pub open spec fn rice_code(value: nat, p: nat) -> Seq<bool> {
    unary(value / pow2(p)) + binary(value % pow2(p), p)
}

/// The length of the code word of `value`.
pub open spec fn rice_len(value: nat, p: nat) -> nat {
    value / pow2(p) + 1 + p
}

/// The number of one-bits that a bit string begins with.
pub open spec fn leading_ones(bits: Seq<bool>) -> nat
    decreases bits.len(),
{
    if bits.len() > 0 && bits[0] {
        1 + leading_ones(bits.drop_first())
    } else {
        0
    }
}

/// The number that a bit string is in binary, most significant bit first.
pub open spec fn bits_value(bits: Seq<bool>) -> nat
    decreases bits.len(),
{
    if bits.len() == 0 {
        0
    } else {
        2 * bits_value(bits.drop_last()) + if bits.last() {
            1nat
        } else {
            0nat
        }
    }
}

/// What the start of `bits` decodes to: the value and the number of bits
/// that its code word takes. There is nothing to decode where the one-bits
/// run to the end, where fewer than `p` bits follow the zero-bit, or where
/// the value is beyond 64 bits.
pub open spec fn decode_one(bits: Seq<bool>, p: nat) -> Option<(nat, nat)> {
    let q = leading_ones(bits);
    let value = q * pow2(p) + bits_value(bits.subrange(q as int + 1, q as int + 1 + p as int));
    if q + 1 + p <= bits.len() && value <= u64::MAX {
        Some((value, q + 1 + p))
    } else {
        None
    }
}

/// `num_integer::div_rem` on `u64`: the quotient and the remainder of the
/// division, which panics for a divisor of zero.
#[verifier::external_body]
fn div_rem(x: u64, y: u64) -> (r: (u64, u64))
    requires
        y != 0,
    ensures
        r.0 == x / y,
        r.1 == x % y,
{
    num_integer::div_rem(x, y)
}

/// `2^p` as a `u64`.
pub fn power_of_two(p: u8) -> (m: u64)
    requires
        p <= 63,
    ensures
        m == pow2(p as nat),
        m >= 1,
{
    proof {
        lemma2_to64_rest();
        lemma_pow2_pos(p as nat);
        if p < 63 {
            lemma_pow2_strictly_increases(p as nat, 63);
        }
        lemma_u64_shl_is_mul(1, p as u64);
    }
    1u64 << (p as u64)
}

/// A bit string that starts with `k` one-bits and then ends or goes on with
/// a zero-bit has `k` leading ones.
pub proof fn lemma_leading_ones(bits: Seq<bool>, k: nat)
    requires
        k <= bits.len(),
        forall|i: int| 0 <= i < k ==> bits[i],
        k == bits.len() || !bits[k as int],
    ensures
        leading_ones(bits) == k,
    decreases k,
{
    if k > 0 {
        lemma_leading_ones(bits.drop_first(), (k - 1) as nat);
    }
}

/// A string of `w` bits is a number below `2^w`.
pub proof fn lemma_bits_value_bound(bits: Seq<bool>)
    ensures
        bits_value(bits) < pow2(bits.len()),
    decreases bits.len(),
{
    if bits.len() == 0 {
        lemma2_to64();
    } else {
        lemma_bits_value_bound(bits.drop_last());
        lemma_pow2_unfold(bits.len());
    }
}

/// The `width` binary digits of a number below `2^width` are that number.
pub proof fn lemma_binary_value(rem: nat, width: nat)
    requires
        rem < pow2(width),
    ensures
        bits_value(binary(rem, width)) == rem,
        binary(rem, width).len() == width,
    decreases width,
{
    if width == 0 {
        lemma2_to64();
    } else {
        let digits = binary(rem, width);
        let half = (rem / 2) as nat;
        let rest = binary(half, (width - 1) as nat);
        lemma_pow2_unfold(width);
        assert(digits.drop_last() =~= rest) by {
            assert forall|j: int| 0 <= j < width - 1 implies digits[j] == rest[j] by {
                let i = (width - 2 - j) as nat;
                lemma_pow2_unfold(i + 1);
                lemma_pow2_pos(i);
                lemma_div_denominator(rem as int, 2, pow2(i) as int);
            }
        }
        assert(digits.last() == (rem % 2 == 1)) by {
            lemma2_to64();
            assert(digits[width - 1] == bit_at(rem, 0));
            assert(rem as int / 1 == rem);
        }
        lemma_binary_value(half, (width - 1) as nat);
    }
}

/// The leading ones of a bit string are one-bits, and what follows them,
/// if anything, is a zero-bit.
pub proof fn lemma_leading_ones_shape(bits: Seq<bool>)
    ensures
        leading_ones(bits) <= bits.len(),
        forall|i: int| 0 <= i < leading_ones(bits) ==> #[trigger] bits[i],
        leading_ones(bits) < bits.len() ==> !bits[leading_ones(bits) as int],
    decreases bits.len(),
{
    if bits.len() > 0 && bits[0] {
        let tail = bits.drop_first();
        lemma_leading_ones_shape(tail);
        assert forall|i: int| 0 <= i < leading_ones(bits) implies #[trigger] bits[i] by {
            if i > 0 {
                assert(bits[i] == tail[i - 1]);
            }
        }
        if leading_ones(bits) < bits.len() {
            assert(bits[leading_ones(bits) as int] == tail[leading_ones(tail) as int]);
        }
    }
}

/// The binary digits of the number that a bit string stands for are that
/// bit string.
pub proof fn lemma_binary_of_value(digits: Seq<bool>)
    ensures
        binary(bits_value(digits), digits.len()) == digits,
    decreases digits.len(),
{
    let width = digits.len();
    let value = bits_value(digits);
    if width > 0 {
        let front = digits.drop_last();
        let half = bits_value(front);
        lemma_binary_of_value(front);
        assert(value / 2 == half);
        assert forall|j: int| 0 <= j < width implies binary(value, width)[j] == digits[j] by {
            if j == width - 1 {
                lemma2_to64();
                assert(value as int / 1 == value);
            } else {
                let i = (width - 2 - j) as nat;
                lemma_pow2_unfold(i + 1);
                lemma_pow2_pos(i);
                lemma_div_denominator(value as int, 2, pow2(i) as int);
                assert(binary(half, front.len())[j] == front[j]);
            }
        }
    }
    assert(binary(value, width) =~= digits);
}

/// Encoding undoes decoding: the bits that a decoded value took are the
/// code word of that value.
pub proof fn lemma_encode_decode(bits: Seq<bool>, p: nat)
    requires
        decode_one(bits, p) is Some,
    ensures
        bits.take(decode_one(bits, p)->Some_0.1 as int) == rice_code(
            decode_one(bits, p)->Some_0.0,
            p,
        ),
{
    let q = leading_ones(bits);
    let digits = bits.subrange(q as int + 1, q as int + 1 + p as int);
    let rem = bits_value(digits);
    let value = q * pow2(p) + rem;
    lemma_leading_ones_shape(bits);
    lemma_bits_value_bound(digits);
    lemma_binary_of_value(digits);
    lemma_pow2_pos(p);
    assert(pow2(p) * q == q * pow2(p)) by (nonlinear_arith);
    lemma_fundamental_div_mod_converse(value as int, pow2(p) as int, q as int, rem as int);
    assert(bits.take((q + 1 + p) as int) =~= rice_code(value, p));
}

/// Decoding undoes encoding: a bit string that starts with the code word of
/// `value` decodes to `value` and to the length of that code word, whatever
/// follows it.
pub proof fn lemma_decode_encode(value: nat, p: nat, rest: Seq<bool>)
    requires
        value <= u64::MAX,
    ensures
        decode_one(rice_code(value, p) + rest, p) == Some((value, rice_len(value, p))),
        rice_code(value, p).len() == rice_len(value, p),
{
    let q = value / pow2(p);
    let rem = value % pow2(p);
    let code = rice_code(value, p);
    let bits = code + rest;
    lemma_pow2_pos(p);
    lemma_fundamental_div_mod(value as int, pow2(p) as int);
    lemma_mod_bound(value as int, pow2(p) as int);
    lemma_div_pos_is_pos(value as int, pow2(p) as int);
    lemma_binary_value(rem, p);
    lemma_leading_ones(bits, q);
    assert(bits.subrange(q as int + 1, q as int + 1 + p as int) =~= binary(rem, p));
    assert(q * pow2(p) == pow2(p) * q) by (nonlinear_arith);
}

/// A bit string of one-bits alone, with no zero-bit to end them, does not
/// decode.
pub proof fn lemma_decode_unterminated(bits: Seq<bool>, p: nat)
    requires
        forall|i: int| 0 <= i < bits.len() ==> bits[i],
    ensures
        decode_one(bits, p) is None,
{
    lemma_leading_ones(bits, bits.len());
}

/// A code word that is cut short does not decode, wherever it is cut.
pub proof fn lemma_decode_truncated(value: nat, p: nat, kept: nat)
    requires
        kept < rice_len(value, p),
    ensures
        decode_one(rice_code(value, p).take(kept as int), p) is None,
{
    let q = value / pow2(p);
    let code = rice_code(value, p);
    let cut = code.take(kept as int);
    lemma_pow2_pos(p);
    lemma_div_pos_is_pos(value as int, pow2(p) as int);
    assert(code.len() == rice_len(value, p));
    if kept <= q {
        lemma_leading_ones(cut, kept);
    } else {
        lemma_leading_ones(cut, q);
    }
}

/// The code words that every bit buffer can address: those of the values
/// below `2^29`, and, where `usize` has 64 bits, of the values below `2^61`.
pub proof fn lemma_code_word_fits(value: nat, p: nat)
    requires
        valid_exponent(p),
        value < 0x2000_0000 || (usize::MAX == u64::MAX && value < 0x2000_0000_0000_0000),
    ensures
        rice_len(value, p) <= max_bits(),
{
    lemma_pow2_unfold(p);
    lemma_pow2_pos((p - 1) as nat);
    lemma_div_denominator(value as int, 2, pow2((p - 1) as nat) as int);
    lemma_div_is_ordered_by_denominator((value / 2) as int, 1, pow2((p - 1) as nat) as int);
    assert((value / 2) as int / 1 == (value / 2) as int);
}

/// Golomb-Rice encoding of `value` with modulus `2^p`.
pub fn golomb_encode(value: u64, p: u8) -> (code: BitBuffer)
    requires
        valid_exponent(p as nat),
        rice_len(value as nat, p as nat) <= max_bits(),
    ensures
        code@ == rice_code(value as nat, p as nat),
{
    let (quo, rem) = div_rem(value, power_of_two(p));
    let mut out = bits_new();
    let mut i: u64 = 0;
    while i < quo
        invariant
            i <= quo,
            quo + 1 + p <= max_bits(),
            out@ == Seq::new(i as nat, |k: int| true),
        decreases quo - i,
    {
        bits_push(&mut out, true);
        i = i + 1;
    }
    bits_push(&mut out, false);
    let mut j: u8 = p;
    while j > 0
        invariant
            j <= p <= 63,
            quo + 1 + p <= max_bits(),
            out@ == unary(quo as nat) + binary(rem as nat, p as nat).take(p - j),
        decreases j,
    {
        j = j - 1;
        let bit = u64_bit(rem, j);
        bits_push(&mut out, bit);
    }
    out
}

/// Golomb-Rice decoding with modulus `2^p` of the code word that `reader`
/// stands at. The reader is left behind the code word, or, where there is
/// none to decode, at the end of its buffer.
pub fn golomb_decode(reader: &mut BitReader<'_>, p: u8) -> (result: Result<u64, GcsError>)
    requires
        old(reader).wf(),
        valid_exponent(p as nat),
    ensures
        final(reader).wf(),
        final(reader).all_bits() == old(reader).all_bits(),
        match decode_one(old(reader).remaining(), p as nat) {
            Some((value, used)) => result == Ok::<u64, GcsError>(value as u64) && final(reader).position() == old(reader).position() + used,
            None => result == Err::<u64, GcsError>(GcsError::DecodeError) && final(reader).remaining().len() == 0,
        },
{
    let ghost start = reader.remaining();
    let ghost origin = reader.position();
    let mut quo: usize = 0;
    loop
        invariant_except_break
            reader.position() == origin + quo,
        invariant
            reader.wf(),
            reader.all_bits() == old(reader).all_bits(),
            start == old(reader).remaining(),
            origin == old(reader).position(),
            forall|i: int| 0 <= i < quo ==> start[i],
        ensures
            reader.position() == origin + quo + 1,
            quo < start.len(),
            !start[quo as int],
        decreases reader.remaining().len(),
    {
        match reader.next_bit() {
            None => {
                proof {
                    lemma_leading_ones(start, quo as nat);
                }
                return Err(GcsError::DecodeError);
            },
            Some(bit) => {
                assert(bit == start[quo as int]);
                if !bit {
                    break ;
                }
                quo = quo + 1;
            },
        }
    }
    proof {
        lemma_leading_ones(start, quo as nat);
    }
    let mut rem: u64 = 0;
    let mut i: u8 = 0;
    while i < p
        invariant
            reader.wf(),
            reader.all_bits() == old(reader).all_bits(),
            start == old(reader).remaining(),
            origin == old(reader).position(),
            leading_ones(start) == quo,
            quo < start.len(),
            i <= p <= 63,
            reader.position() == origin + quo + 1 + i,
            rem == bits_value(start.subrange(quo + 1, quo + 1 + i)),
        decreases p - i,
    {
        let ghost read = start.subrange(quo + 1, quo + 1 + i);
        match reader.next_bit() {
            None => {
                return Err(GcsError::DecodeError);
            },
            Some(bit) => {
                proof {
                    let next = start.subrange(quo + 1, quo + 1 + i + 1);
                    assert(next.drop_last() == read);
                    assert(next.last() == bit);
                    lemma_bits_value_bound(read);
                    lemma_pow2_strictly_increases(i as nat, 63);
                    lemma2_to64_rest();
                }
                rem = 2 * rem + if bit {
                    1
                } else {
                    0
                };
                i = i + 1;
            },
        }
    }
    let modulus = power_of_two(p);
    let high = (quo as u64).checked_mul(modulus);
    let value = match high {
        Some(h) => h.checked_add(rem),
        None => None,
    };
    match value {
        Some(v) => Ok(v),
        None => {
            reader.skip_to_end();
            Err(GcsError::DecodeError)
        },
    }
}

} // verus!
