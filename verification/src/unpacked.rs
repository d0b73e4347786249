//! The unpacked form of a set: its fingerprints in ascending order, quick
//! to build and to search.

use crate::bits::bits_append;
use crate::bits::bits_new;
use crate::bits::max_bits;
use crate::error::GcsError;
use crate::golomb::golomb_encode;
use crate::golomb::lemma_decode_encode;
use crate::golomb::power_of_two;
use crate::hash::fingerprint;
use crate::hash::fingerprint_spec;
use crate::hash::modulus;
use crate::hash::HashAlgorithm;
use crate::packed::Gcs;
use crate::params::valid_parameters;
use crate::stream::ascending;
use crate::stream::encode_set;
use crate::stream::lemma_decode_encode_set;
use crate::stream::lemma_encode_push;
use crate::stream::lemma_encoded_length;
use crate::stream::lemma_prefix_length;
use vstd::arithmetic::div_mod::lemma_basic_div;
use vstd::arithmetic::div_mod::lemma_multiply_divide_lt;
use vstd::arithmetic::power2::lemma_pow2_pos;
use vstd::arithmetic::power2::pow2;
use vstd::prelude::*;

verus! {

/// The number of values at the start of `values` that are below `x`: the
/// place of `x` among ascending values.
pub open spec fn insertion_point(values: Seq<u64>, x: u64) -> int
    decreases values.len(),
{
    if values.len() > 0 && values[0] < x {
        1 + insertion_point(values.drop_first(), x)
    } else {
        0
    }
}

/// Ascending values with `x` put in at its place.
pub open spec fn sorted_insert(values: Seq<u64>, x: u64) -> Seq<u64> {
    values.insert(insertion_point(values, x), x)
}

/// Where the first `k` values are below `x` and the next one is not, `k` is
/// the place of `x`.
pub proof fn lemma_insertion_point(values: Seq<u64>, x: u64, k: int)
    requires
        0 <= k <= values.len(),
        forall|i: int| 0 <= i < k ==> values[i] < x,
        k == values.len() || values[k] >= x,
    ensures
        insertion_point(values, x) == k,
    decreases k,
{
    if k > 0 {
        lemma_insertion_point(values.drop_first(), x, k - 1);
    }
}

/// The place of `x` lies within the values; all before it are below `x`,
/// and in ascending values none from it on is.
pub proof fn lemma_insertion_point_splits(values: Seq<u64>, x: u64)
    ensures
        0 <= insertion_point(values, x) <= values.len(),
        forall|i: int| 0 <= i < insertion_point(values, x) ==> values[i] < x,
        ascending(values) ==> forall|i: int|
            insertion_point(values, x) <= i < values.len() ==> values[i] >= x,
    decreases values.len(),
{
    if values.len() > 0 && values[0] < x {
        let tail = values.drop_first();
        lemma_insertion_point_splits(tail, x);
        let k = insertion_point(tail, x);
        assert forall|i: int| 0 <= i < k + 1 implies values[i] < x by {
            if i > 0 {
                assert(values[i] == tail[i - 1]);
            }
        }
        if ascending(values) {
            assert(ascending(tail)) by {
                assert forall|i: int, j: int| 0 <= i <= j < tail.len() implies tail[i]
                    <= tail[j] by {
                    assert(values[i + 1] <= values[j + 1]);
                }
            }
            assert forall|i: int| k + 1 <= i < values.len() implies values[i] >= x by {
                assert(values[i] == tail[i - 1]);
            }
        }
    } else if values.len() > 0 && ascending(values) {
        assert forall|i: int| 0 <= i < values.len() implies values[i] >= x by {
            assert(values[0] <= values[i]);
        }
    }
}

/// No false negatives after an insertion: ascending values with `x` put in
/// are ascending, one longer, and hold `x` and every value held before.
pub proof fn lemma_sorted_insert(values: Seq<u64>, x: u64)
    requires
        ascending(values),
    ensures
        ascending(sorted_insert(values, x)),
        sorted_insert(values, x).len() == values.len() + 1,
        sorted_insert(values, x).contains(x),
        forall|y: u64| values.contains(y) ==> sorted_insert(values, x).contains(y),
        forall|y: u64| sorted_insert(values, x).contains(y) ==> y == x || values.contains(y),
{
    lemma_insertion_point_splits(values, x);
    let k = insertion_point(values, x);
    let longer = sorted_insert(values, x);
    assert(longer[k] == x);
    assert forall|i: int, j: int| 0 <= i <= j < longer.len() implies longer[i] <= longer[j] by {
        if i < k && j > k {
            assert(longer[i] == values[i] && longer[j] == values[j - 1]);
        } else if i < k && j < k {
            assert(longer[i] == values[i] && longer[j] == values[j]);
        } else if i > k {
            assert(longer[i] == values[i - 1] && longer[j] == values[j - 1]);
        } else if i == k && j > k {
            assert(longer[j] == values[j - 1]);
        } else if j == k && i < k {
            assert(longer[i] == values[i]);
        }
    }
    assert forall|y: u64| values.contains(y) implies longer.contains(y) by {
        let i = choose|i: int| 0 <= i < values.len() && values[i] == y;
        if i < k {
            assert(longer[i] == y);
        } else {
            assert(longer[i + 1] == y);
        }
    }
    assert forall|y: u64| longer.contains(y) implies y == x || values.contains(y) by {
        let i = choose|i: int| 0 <= i < longer.len() && longer[i] == y;
        if i < k {
            assert(values[i] == y);
        } else if i > k {
            assert(values[i - 1] == y);
        }
    }
}

/// An unpacked Golomb-coded set.
#[derive(Clone, Debug, PartialEq)]
pub struct UnpackedGcs {
    n: usize,
    p: u8,
    values: Vec<u64>,
    hash: HashAlgorithm,
}

impl View for UnpackedGcs {
    type V = Seq<u64>;

    /// The fingerprints of the set, in ascending order.
    closed spec fn view(&self) -> Seq<u64> {
        self.values@
    }
}

impl UnpackedGcs {
    /// The number of elements that the set is made for.
    pub closed spec fn capacity(&self) -> nat {
        self.n as nat
    }

    /// The exponent `p` of the false-positive rate `1 / 2^p`.
    pub closed spec fn exponent(&self) -> nat {
        self.p as nat
    }

    /// The hash algorithm that the fingerprints come from.
    pub closed spec fn algorithm(&self) -> HashAlgorithm {
        self.hash
    }

    /// The number of fingerprints of the set's parameters, `n * 2^p`.
    pub open spec fn modulus(&self) -> nat {
        modulus(self.capacity(), self.exponent())
    }

    /// The fingerprint that `input` has in this set.
    pub open spec fn fingerprint_of(&self, input: Seq<u8>) -> nat {
        fingerprint_spec(self.algorithm(), self.capacity(), self.exponent(), input)
    }

    /// The parameters are valid and the fingerprints are ascending.
    pub open spec fn wf(&self) -> bool {
        &&& valid_parameters(self.capacity(), self.exponent())
        &&& ascending(self@)
    }

    /// The set holds no more fingerprints than it is made for, and each is
    /// below `n * 2^p`. This holds of a set that was filled by insertion;
    /// a set that was unpacked holds whatever its bit stream held.
    pub open spec fn within_parameters(&self) -> bool {
        &&& self@.len() <= self.capacity()
        &&& forall|i: int| 0 <= i < self@.len() ==> self@[i] < self.modulus()
    }

    /// The packed form of the set is no longer than a bit buffer can
    /// address.
    pub open spec fn packable(&self) -> bool {
        encode_set(self@, self.exponent()).len() <= max_bits()
    }

    /// Creates an empty set for `n` elements, where `1 / 2^p` is the
    /// probability of a false positive once `n` elements have been inserted.
    pub fn new(n: usize, p: u8, hash: HashAlgorithm) -> (set: Self)
        requires
            valid_parameters(n as nat, p as nat),
        ensures
            set.wf(),
            set.within_parameters(),
            set@ == Seq::<u64>::empty(),
            set.capacity() == n,
            set.exponent() == p,
            set.algorithm() == hash,
    {
        UnpackedGcs { n, p, values: Vec::new(), hash }
    }

    /// A set of the given fingerprints.
    pub(crate) fn from_parts(n: usize, p: u8, values: Vec<u64>, hash: HashAlgorithm) -> (set: Self)
        ensures
            set@ == values@,
            set.capacity() == n,
            set.exponent() == p,
            set.algorithm() == hash,
    {
        UnpackedGcs { n, p, values, hash }
    }

    /// The number of elements that the set is made for.
    pub fn n(&self) -> (n: usize)
        ensures
            n == self.capacity(),
    {
        self.n
    }

    /// The exponent of the false-positive rate.
    pub fn p(&self) -> (p: u8)
        ensures
            p == self.exponent(),
    {
        self.p
    }

    /// The hash algorithm of the set.
    pub fn hash(&self) -> (hash: HashAlgorithm)
        ensures
            hash == self.algorithm(),
    {
        self.hash
    }

    /// The number of fingerprints in the set.
    pub fn len(&self) -> (len: usize)
        ensures
            len == self@.len(),
    {
        self.values.len()
    }

    /// The fingerprints of the set, in ascending order.
    pub fn fingerprints(&self) -> (values: &Vec<u64>)
        ensures
            values@ == self@,
    {
        &self.values
    }

    /// The fingerprint that `input` has in this set.
    pub fn fingerprint(&self, input: &[u8]) -> (value: u64)
        requires
            self.wf(),
        ensures
            value == self.fingerprint_of(input@),
            value < self.modulus(),
    {
        fingerprint(self.hash, self.n as u64, self.p, input)
    }

    /// The place of `x` among the fingerprints, by binary search.
    fn lower_bound(&self, x: u64) -> (idx: usize)
        requires
            ascending(self@),
        ensures
            idx == insertion_point(self@, x),
            idx <= self@.len(),
            idx < self@.len() ==> self@[idx as int] >= x,
            self@.contains(x) <==> idx < self@.len() && self@[idx as int] == x,
    {
        let mut lo: usize = 0;
        let mut hi: usize = self.values.len();
        while lo < hi
            invariant
                lo <= hi <= self@.len(),
                self@ == self.values@,
                ascending(self@),
                forall|i: int| 0 <= i < lo ==> self@[i] < x,
                forall|i: int| hi <= i < self@.len() ==> self@[i] >= x,
            decreases hi - lo,
        {
            let mid = lo + (hi - lo) / 2;
            if self.values[mid] < x {
                lo = mid + 1;
            } else {
                hi = mid;
            }
        }
        proof {
            lemma_insertion_point(self@, x, lo as int);
        }
        lo
    }

    /// Adds a fingerprint to the set, at its place in the ascending order;
    /// one that is there already is kept a second time. A full set is left
    /// as it is.
    pub fn insert_fingerprint(&mut self, value: u64) -> (result: Result<(), GcsError>)
        requires
            old(self).wf(),
        ensures
            final(self).wf(),
            final(self).capacity() == old(self).capacity(),
            final(self).exponent() == old(self).exponent(),
            final(self).algorithm() == old(self).algorithm(),
            old(self)@.len() >= old(self).capacity() ==> result == Err::<(), GcsError>(
                GcsError::LimitReached,
            ) && final(self)@ == old(self)@,
            old(self)@.len() < old(self).capacity() ==> result == Ok::<(), GcsError>(())
                && final(self)@ == sorted_insert(old(self)@, value),
            old(self).within_parameters() && value < old(self).modulus() ==> final(
                self
            ).within_parameters(),
    {
        if self.values.len() < self.n {
            let idx = self.lower_bound(value);
            proof {
                lemma_sorted_insert(self@, value);
            }
            self.values.insert(idx, value);
            proof {
                let longer = self@;
                if old(self).within_parameters() && value < old(self).modulus() {
                    assert forall|i: int| 0 <= i < longer.len() implies longer[i]
                        < self.modulus() by {
                        if i < idx {
                            assert(longer[i] == old(self)@[i]);
                        } else if i > idx {
                            assert(longer[i] == old(self)@[i - 1]);
                        }
                    }
                }
            }
            Ok(())
        } else {
            Err(GcsError::LimitReached)
        }
    }

    /// Adds an entry to the set, and returns an error if the set already
    /// holds as many entries as it was made for.
    pub fn insert(&mut self, input: &[u8]) -> (result: Result<(), GcsError>)
        requires
            old(self).wf(),
        ensures
            final(self).wf(),
            final(self).capacity() == old(self).capacity(),
            final(self).exponent() == old(self).exponent(),
            final(self).algorithm() == old(self).algorithm(),
            old(self)@.len() >= old(self).capacity() ==> result == Err::<(), GcsError>(
                GcsError::LimitReached,
            ) && final(self)@ == old(self)@,
            old(self)@.len() < old(self).capacity() ==> result == Ok::<(), GcsError>(())
                && final(self)@ == sorted_insert(
                old(self)@,
                old(self).fingerprint_of(input@) as u64,
            ),
            old(self).within_parameters() ==> final(self).within_parameters(),
    {
        if self.values.len() < self.n {
            let value = fingerprint(self.hash, self.n as u64, self.p, input);
            self.insert_fingerprint(value)
        } else {
            Err(GcsError::LimitReached)
        }
    }

    /// Whether the set holds the fingerprint `value`.
    pub fn contains_fingerprint(&self, value: u64) -> (found: bool)
        requires
            self.wf(),
        ensures
            found == self@.contains(value),
    {
        let idx = self.lower_bound(value);
        idx < self.values.len() && self.values[idx] == value
    }

    /// Returns whether or not an input is contained in the set. If false
    /// the input is definitely not present, if true the input is probably
    /// present.
    pub fn contains(&self, input: &[u8]) -> (found: bool)
        requires
            self.wf(),
        ensures
            found == self@.contains(self.fingerprint_of(input@) as u64),
    {
        let value = fingerprint(self.hash, self.n as u64, self.p, input);
        self.contains_fingerprint(value)
    }

    /// `packed` is the packed form of this set: the same parameters, and
    /// the code words of its fingerprints' differences as bits.
    pub open spec fn packs_to(&self, packed: &Gcs) -> bool {
        &&& packed.capacity() == self.capacity()
        &&& packed.exponent() == self.exponent()
        &&& packed.algorithm() == self.algorithm()
        &&& packed.bits() == encode_set(self@, self.exponent())
    }

    /// Whether the set can be packed: whether its packed form is no longer
    /// than a bit buffer can address.
    pub fn can_pack(&self) -> (fits: bool)
        requires
            self.wf(),
        ensures
            fits == self.packable(),
    {
        let limit: u64 = (usize::MAX / 8) as u64;
        let modulus = power_of_two(self.p);
        let mut total: u64 = 0;
        let mut prev: u64 = 0;
        let mut i: usize = 0;
        while i < self.values.len()
            invariant
                i <= self@.len(),
                self.wf(),
                self@ == self.values@,
                self.p == self.exponent(),
                modulus == pow2(self.exponent()),
                modulus >= 1,
                limit == max_bits(),
                prev == if i == 0 {
                    0
                } else {
                    self@[i - 1]
                },
                total == encode_set(self@.take(i as int), self.exponent()).len(),
                total <= limit,
            decreases self@.len() - i,
        {
            let value = self.values[i];
            proof {
                if i > 0 {
                    assert(self@[i - 1] <= self@[i as int]);
                }
            }
            let delta = value - prev;
            proof {
                let before = self@.take(i as int);
                assert(self@.take(i + 1) =~= before.push(value));
                if i > 0 {
                    assert(before.last() == self@[i - 1]);
                }
                lemma_encode_push(0, before, value, self.exponent());
                lemma_decode_encode(delta as nat, self.exponent(), Seq::empty());
                lemma_prefix_length(0, self@, self.exponent(), i + 1);
            }
            let word = match (delta / modulus).checked_add(1 + self.p as u64) {
                Some(word) => word,
                None => {
                    return false;
                },
            };
            total = match total.checked_add(word) {
                Some(sum) => sum,
                None => {
                    return false;
                },
            };
            if total > limit {
                return false;
            }
            prev = value;
            i = i + 1;
        }
        proof {
            assert(self@.take(i as int) =~= self@);
        }
        true
    }

    /// Packs the set into a `Gcs`, which takes less memory and is slower to
    /// search. The set itself is left as it is.
    pub fn pack(&self) -> (packed: Gcs)
        requires
            self.wf(),
            self.packable(),
        ensures
            packed.wf(),
            self.packs_to(&packed),
            packed.decoded() == Some(self@),
    {
        let mut data = bits_new();
        let mut prev: u64 = 0;
        let mut i: usize = 0;
        while i < self.values.len()
            invariant
                i <= self@.len(),
                self.wf(),
                self.packable(),
                self@ == self.values@,
                self.p == self.exponent(),
                prev == if i == 0 {
                    0
                } else {
                    self@[i - 1]
                },
                data@ == encode_set(self@.take(i as int), self.exponent()),
            decreases self@.len() - i,
        {
            let value = self.values[i];
            proof {
                if i > 0 {
                    assert(self@[i - 1] <= self@[i as int]);
                }
            }
            let delta = value - prev;
            proof {
                let before = self@.take(i as int);
                assert(self@.take(i + 1) =~= before.push(value));
                if i > 0 {
                    assert(before.last() == self@[i - 1]);
                }
                lemma_encode_push(0, before, value, self.exponent());
                lemma_decode_encode(delta as nat, self.exponent(), Seq::empty());
                lemma_prefix_length(0, self@, self.exponent(), i + 1);
            }
            let mut code = golomb_encode(delta, self.p);
            bits_append(&mut data, &mut code);
            prev = value;
            i = i + 1;
        }
        proof {
            assert(self@.take(i as int) =~= self@);
            lemma_decode_encode_set(0, self@, self.exponent());
        }
        Gcs::from_parts(self.n, self.p, data, self.hash)
    }
}

/// A set that was filled by insertion can be packed where a bit buffer can
/// address `n * (p + 2)` bits: its packed form is shorter than that.
pub proof fn lemma_filled_set_packs(set: UnpackedGcs)
    requires
        set.wf(),
        set.within_parameters(),
        set.capacity() * (set.exponent() + 2) <= max_bits(),
    ensures
        set.packable(),
{
    let n = set.capacity();
    let p = set.exponent();
    let k = set@.len();
    let m = pow2(p);
    lemma_pow2_pos(p);
    lemma_encoded_length(0, set@, p);
    if k > 0 {
        let last = set@.last();
        assert(last < n * m);
        assert(m * n == n * m) by (nonlinear_arith);
        lemma_multiply_divide_lt(last as int, m as int, n as int);
    } else {
        lemma_basic_div(0, m as int);
    }
    assert(k * (1 + p) <= n * (1 + p)) by (nonlinear_arith)
        requires
            k <= n,
    ;
    assert(n * (1 + p) + n == n * (p + 2)) by (nonlinear_arith);
}

} // verus!
