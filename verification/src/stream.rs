//! The packed form of a set as a bit string: the code words of the
//! differences between successive fingerprints, one behind the other.

use crate::golomb::decode_one;
use crate::golomb::lemma_decode_encode;
use crate::golomb::lemma_encode_decode;
use crate::golomb::rice_code;
use crate::golomb::rice_len;
use vstd::arithmetic::div_mod::lemma_fundamental_div_mod;
use vstd::arithmetic::div_mod::lemma_mod_bound;
use vstd::arithmetic::power2::lemma_pow2_pos;
use vstd::arithmetic::power2::pow2;
use vstd::prelude::*;

verus! {

/// No fingerprint is smaller than one before it.
pub open spec fn ascending(values: Seq<u64>) -> bool {
    forall|i: int, j: int| 0 <= i <= j < values.len() ==> values[i] <= values[j]
}

/// The code words of the steps from `prev` to the first value and from each
/// value to the next.
pub open spec fn encode_from(prev: nat, values: Seq<u64>, p: nat) -> Seq<bool>
    decreases values.len(),
{
    if values.len() == 0 {
        Seq::empty()
    } else {
        rice_code((values[0] - prev) as nat, p) + encode_from(
            values[0] as nat,
            values.drop_first(),
            p,
        )
    }
}

/// The packed form of ascending fingerprints: the first as it is, each
/// other as its difference from the one before.
pub open spec fn encode_set(values: Seq<u64>, p: nat) -> Seq<bool> {
    encode_from(0, values, p)
}

/// The values that a bit string holds when each code word in it is a step
/// up from the value before, the first from `prev`. There are none where a
/// code word does not decode or a value is beyond 64 bits.
pub open spec fn decode_from(prev: nat, bits: Seq<bool>, p: nat) -> Option<Seq<u64>>
    decreases bits.len(),
{
    if bits.len() == 0 {
        Some(Seq::empty())
    } else {
        match decode_one(bits, p) {
            None => None,
            Some((delta, used)) => if prev + delta > u64::MAX {
                None
            } else {
                match decode_from(prev + delta, bits.skip(used as int), p) {
                    None => None,
                    Some(rest) => Some(seq![(prev + delta) as u64] + rest),
                }
            },
        }
    }
}

/// The fingerprints that a packed bit string holds.
pub open spec fn decode_set(bits: Seq<bool>, p: nat) -> Option<Seq<u64>> {
    decode_from(0, bits, p)
}

/// What a search for `target` finds when it decodes one code word after
/// the other and stops at the first value that is `target`: `Some(true)`
/// there, `Some(false)` at the end of the bit string, and `None` where a
/// code word that it comes to does not decode or gives a value beyond 64
/// bits.
pub open spec fn lookup_from(prev: nat, bits: Seq<bool>, p: nat, target: nat) -> Option<bool>
    decreases bits.len(),
{
    if bits.len() == 0 {
        Some(false)
    } else {
        match decode_one(bits, p) {
            None => None,
            Some((delta, used)) => if prev + delta > u64::MAX {
                None
            } else if prev + delta == target {
                Some(true)
            } else {
                lookup_from(prev + delta, bits.skip(used as int), p, target)
            },
        }
    }
}

/// The values are ascending and none is below `prev`.
pub open spec fn ascending_from(prev: nat, values: Seq<u64>) -> bool {
    ascending(values) && forall|i: int| 0 <= i < values.len() ==> prev <= values[i]
}

/// Unpacking undoes packing: the packed form of ascending values decodes
/// to those values.
pub proof fn lemma_decode_encode_set(prev: nat, values: Seq<u64>, p: nat)
    requires
        ascending_from(prev, values),
    ensures
        decode_from(prev, encode_from(prev, values, p), p) == Some(values),
    decreases values.len(),
{
    if values.len() > 0 {
        let delta = (values[0] - prev) as nat;
        let rest = encode_from(values[0] as nat, values.drop_first(), p);
        let bits = encode_from(prev, values, p);
        lemma_decode_encode(delta, p, rest);
        assert(bits.skip(rice_len(delta, p) as int) =~= rest);
        assert(ascending_from(values[0] as nat, values.drop_first())) by {
            let tail = values.drop_first();
            assert forall|i: int, j: int| 0 <= i <= j < tail.len() implies tail[i] <= tail[j] by {
                assert(values[i + 1] <= values[j + 1]);
            }
            assert forall|i: int| 0 <= i < tail.len() implies values[0] <= tail[i] by {
                assert(values[0] <= values[i + 1]);
            }
        }
        lemma_decode_encode_set(values[0] as nat, values.drop_first(), p);
        assert(seq![values[0]] + values.drop_first() =~= values);
    }
}

/// A search through a bit string that decodes finds exactly the values
/// that it holds.
pub proof fn lemma_lookup_decoded(prev: nat, bits: Seq<bool>, p: nat, target: u64)
    requires
        decode_from(prev, bits, p) is Some,
    ensures
        lookup_from(prev, bits, p, target as nat) == Some(
            decode_from(prev, bits, p)->Some_0.contains(target),
        ),
    decreases bits.len(),
{
    let values = decode_from(prev, bits, p)->Some_0;
    if bits.len() > 0 {
        let (delta, used) = decode_one(bits, p)->Some_0;
        let rest = decode_from(prev + delta, bits.skip(used as int), p)->Some_0;
        let first = (prev + delta) as u64;
        assert(values == seq![first] + rest);
        lemma_lookup_decoded(prev + delta, bits.skip(used as int), p, target);
        if first == target {
            assert(values[0] == target);
        } else if rest.contains(target) {
            let i = choose|i: int| 0 <= i < rest.len() && rest[i] == target;
            assert(values[i + 1] == target);
        } else {
            assert forall|i: int| 0 <= i < values.len() implies values[i] != target by {
                if i > 0 {
                    assert(values[i] == rest[i - 1]);
                }
            }
        }
    } else {
        assert(!values.contains(target));
    }
}

/// What a bit string decodes to is ascending, and nothing in it is below
/// the value that the first step starts from.
pub proof fn lemma_decoded_ascending(prev: nat, bits: Seq<bool>, p: nat)
    requires
        decode_from(prev, bits, p) is Some,
    ensures
        ascending_from(prev, decode_from(prev, bits, p)->Some_0),
    decreases bits.len(),
{
    let values = decode_from(prev, bits, p)->Some_0;
    if bits.len() > 0 {
        let (delta, used) = decode_one(bits, p)->Some_0;
        let rest = decode_from(prev + delta, bits.skip(used as int), p)->Some_0;
        let first = (prev + delta) as u64;
        assert(values == seq![first] + rest);
        lemma_decoded_ascending(prev + delta, bits.skip(used as int), p);
        assert forall|i: int, j: int| 0 <= i <= j < values.len() implies values[i] <= values[j] by {
            if i > 0 {
                assert(values[i] == rest[i - 1]);
                assert(values[j] == rest[j - 1]);
            } else if j > 0 {
                assert(values[j] == rest[j - 1]);
            }
        }
        assert forall|i: int| 0 <= i < values.len() implies prev <= values[i] by {
            if i > 0 {
                assert(values[i] == rest[i - 1]);
            }
        }
    }
}

/// One more value behind the others adds its code word behind theirs.
pub proof fn lemma_encode_push(prev: nat, values: Seq<u64>, next: u64, p: nat)
    ensures
        encode_from(prev, values.push(next), p) == encode_from(prev, values, p) + rice_code(
            (next - if values.len() == 0 {
                prev
            } else {
                values.last() as nat
            }) as nat,
            p,
        ),
    decreases values.len(),
{
    let longer = values.push(next);
    if values.len() == 0 {
        assert(longer.drop_first() =~= Seq::<u64>::empty());
        assert(encode_from(next as nat, longer.drop_first(), p) =~= Seq::<bool>::empty());
        assert(encode_from(prev, longer, p) =~= rice_code((next - prev) as nat, p));
        assert(encode_from(prev, values, p) + rice_code((next - prev) as nat, p) =~= rice_code(
            (next - prev) as nat,
            p,
        ));
    } else {
        assert(longer.drop_first() =~= values.drop_first().push(next));
        lemma_encode_push(values[0] as nat, values.drop_first(), next, p);
        if values.len() > 1 {
            assert(values.drop_first().last() == values.last());
        }
        let head = rice_code((values[0] - prev) as nat, p);
        let tail = encode_from(values[0] as nat, values.drop_first(), p);
        let word = rice_code((next - values.last()) as nat, p);
        assert(head + (tail + word) =~= (head + tail) + word);
    }
}

/// Packing undoes unpacking: the values that a bit string decodes to pack
/// into that bit string.
pub proof fn lemma_encode_decoded_set(prev: nat, bits: Seq<bool>, p: nat)
    requires
        decode_from(prev, bits, p) is Some,
    ensures
        encode_from(prev, decode_from(prev, bits, p)->Some_0, p) == bits,
    decreases bits.len(),
{
    let values = decode_from(prev, bits, p)->Some_0;
    if bits.len() > 0 {
        let (delta, used) = decode_one(bits, p)->Some_0;
        let rest = decode_from(prev + delta, bits.skip(used as int), p)->Some_0;
        let first = (prev + delta) as u64;
        assert(values == seq![first] + rest);
        assert(values.drop_first() =~= rest);
        lemma_encode_decode(bits, p);
        lemma_encode_decoded_set(prev + delta, bits.skip(used as int), p);
        assert(bits.take(used as int) + bits.skip(used as int) =~= bits);
    } else {
        assert(encode_from(prev, values, p) =~= bits);
    }
}

/// The packed form of the first `k` values is no longer than that of all.
pub proof fn lemma_prefix_length(prev: nat, values: Seq<u64>, p: nat, k: int)
    requires
        0 <= k <= values.len(),
    ensures
        encode_from(prev, values.take(k), p).len() <= encode_from(prev, values, p).len(),
    decreases values.len() - k,
{
    if k < values.len() {
        assert(values.take(k + 1) =~= values.take(k).push(values[k]));
        lemma_encode_push(prev, values.take(k), values[k], p);
        lemma_prefix_length(prev, values, p, k + 1);
    } else {
        assert(values.take(k) =~= values);
    }
}

/// The packed form is no longer than the last value's quotient by `2^p`
/// less that of `prev`, and `1 + p` bits for each value.
pub proof fn lemma_encoded_length(prev: nat, values: Seq<u64>, p: nat)
    requires
        ascending_from(prev, values),
    ensures
        encode_from(prev, values, p).len() + prev / pow2(p) <= (if values.len() == 0 {
            prev
        } else {
            values.last() as nat
        }) / pow2(p) + values.len() * (1 + p),
    decreases values.len(),
{
    if values.len() > 0 {
        let first = values[0] as nat;
        let delta = (first - prev) as nat;
        let tail = values.drop_first();
        let m = pow2(p);
        lemma_pow2_pos(p);
        lemma_decode_encode(delta, p, Seq::empty());
        assert(ascending_from(first, tail)) by {
            assert forall|i: int, j: int| 0 <= i <= j < tail.len() implies tail[i] <= tail[j] by {
                assert(values[i + 1] <= values[j + 1]);
            }
            assert forall|i: int| 0 <= i < tail.len() implies first <= tail[i] by {
                assert(values[0] <= values[i + 1]);
            }
        }
        lemma_encoded_length(first, tail, p);
        if tail.len() > 0 {
            assert(tail.last() == values.last());
        }
        lemma_quotient_of_difference(prev, first, m);
        assert(values.len() * (1 + p) == tail.len() * (1 + p) + (1 + p)) by (nonlinear_arith)
            requires
                values.len() == tail.len() + 1,
        ;
    }
}

/// The quotient of a difference is at most the difference of the
/// quotients.
pub proof fn lemma_quotient_of_difference(low: nat, high: nat, m: nat)
    requires
        low <= high,
        m > 0,
    ensures
        (high - low) / (m as int) + low / m <= high / m,
{
    let d = (high - low) as int;
    lemma_fundamental_div_mod(d, m as int);
    lemma_fundamental_div_mod(low as int, m as int);
    lemma_fundamental_div_mod(high as int, m as int);
    lemma_mod_bound(d, m as int);
    lemma_mod_bound(low as int, m as int);
    lemma_mod_bound(high as int, m as int);
    let a = d / (m as int);
    let b = (low as int) / (m as int);
    let c = (high as int) / (m as int);
    assert(a + b <= c) by (nonlinear_arith)
        requires
            m > 0,
            high == m * c + (high as int % m as int),
            low == m * b + (low as int % m as int),
            d == m * a + (d % m as int),
            d == high - low,
            0 <= (high as int % m as int) < m,
            0 <= (low as int % m as int) < m,
            0 <= (d % m as int) < m,
    ;
}

} // verus!
