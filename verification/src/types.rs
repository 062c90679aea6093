//! The data model: attestations, their vote data, aggregation bitfields,
//! and the blinded-block fields the distance metric reads.

use vstd::prelude::*;

use crate::sums::{lemma_seq_sum_pointwise_le, lemma_seq_sum_remove, seq_sum};

verus! {

/// A 32-byte root, held as four 64-bit words.
#[derive(Clone, Copy, PartialEq, Eq, Structural, Debug, Hash)]
pub struct Root {
    pub w0: u64,
    pub w1: u64,
    pub w2: u64,
    pub w3: u64,
}

/// An epoch boundary vote.
#[derive(Clone, Copy, PartialEq, Eq, Structural, Debug, Hash)]
pub struct Checkpoint {
    pub epoch: u64,
    pub root: Root,
}

/// The voted-upon content of an attestation, excluding the aggregation
/// bitfield and the signature.
#[derive(Clone, Copy, PartialEq, Eq, Structural, Debug, Hash)]
pub struct AttestationData {
    pub slot: u64,
    pub index: u64,
    pub beacon_block_root: Root,
    pub source: Checkpoint,
    pub target: Checkpoint,
}

/// A variable-length aggregation bitfield.
#[derive(Clone, Debug)]
pub struct Bitfield {
    pub bits: Vec<bool>,
}

/// A validator vote: vote data plus the aggregation bitfield saying which
/// committee members signed.
#[derive(Clone, Debug)]
pub struct Attestation {
    pub data: AttestationData,
    pub aggregation_bits: Bitfield,
}

/// The fields of a blinded beacon block that this system reads.
#[derive(Clone, Debug)]
pub struct Block {
    pub parent_root: Root,
    pub attestations: Vec<Attestation>,
}

/// The most validators a committee can hold, and so the longest an
/// aggregation bitfield can be.
pub const MAX_COMMITTEE_BITS: usize = 2048;

/// The attestation's bitfield is no longer than a committee.
pub open spec fn att_wf(a: Attestation) -> bool {
    a.aggregation_bits.bits@.len() <= MAX_COMMITTEE_BITS
}

/// Every attestation of the list is well-formed.
pub open spec fn atts_wf(s: Seq<Attestation>) -> bool {
    forall|i: int| 0 <= i < s.len() ==> att_wf(#[trigger] s[i])
}

/// The bit at position `i`, with positions past the end reading as clear.
pub open spec fn bit_at(s: Seq<bool>, i: int) -> bool {
    0 <= i < s.len() && s[i]
}

/// Number of set bits.
pub open spec fn popcount(s: Seq<bool>) -> int {
    seq_sum(s.map_values(|b: bool| if b { 1int } else { 0int }))
}

/// The first `n` bits of the symmetric difference of two bitfields.
pub open spec fn xor_upto(a: Seq<bool>, b: Seq<bool>, n: int) -> Seq<bool> {
    Seq::new(n as nat, |i: int| bit_at(a, i) != bit_at(b, i))
}

/// The larger of two lengths.
pub open spec fn max_len(a: Seq<bool>, b: Seq<bool>) -> int {
    if a.len() >= b.len() {
        a.len() as int
    } else {
        b.len() as int
    }
}

/// Distance between two bitfields: the number of positions on which they
/// disagree, positions past either end reading as clear.
pub open spec fn bits_dist(a: Seq<bool>, b: Seq<bool>) -> int {
    popcount(xor_upto(a, b, max_len(a, b)))
}

pub proof fn lemma_popcount_nonneg(s: Seq<bool>)
    ensures
        popcount(s) >= 0,
{
    crate::sums::lemma_seq_sum_nonneg(s.map_values(|b: bool| if b { 1int } else { 0int }));
}

pub proof fn lemma_popcount_bound(s: Seq<bool>)
    ensures
        0 <= popcount(s) <= s.len(),
{
    lemma_popcount_nonneg(s);
    lemma_seq_sum_pointwise_le(
        s.map_values(|b: bool| if b { 1int } else { 0int }),
        Seq::new(s.len(), |i: int| 1int),
    );
    lemma_seq_sum_of_ones(s.len() as int);
}

proof fn lemma_seq_sum_of_ones(n: int)
    requires
        n >= 0,
    ensures
        seq_sum(Seq::new(n as nat, |i: int| 1int)) == n,
    decreases n,
{
    if n > 0 {
        assert(Seq::new(n as nat, |i: int| 1int).drop_last() =~= Seq::new(
            (n - 1) as nat,
            |i: int| 1int,
        ));
        lemma_seq_sum_of_ones(n - 1);
    }
}

/// Popcounts agree over pointwise-implied bit sequences; used to push
/// pointwise facts up to counts.
pub proof fn lemma_popcount_pointwise_le(a: Seq<bool>, b: Seq<bool>)
    requires
        a.len() == b.len(),
        forall|i: int| 0 <= i < a.len() && a[i] ==> b[i],
    ensures
        popcount(a) <= popcount(b),
{
    lemma_seq_sum_pointwise_le(
        a.map_values(|x: bool| if x { 1int } else { 0int }),
        b.map_values(|x: bool| if x { 1int } else { 0int }),
    );
}

/// Popcount of the sum of two indicator sequences splits into the parts.
proof fn lemma_popcount_or_le(a: Seq<bool>, b: Seq<bool>, c: Seq<bool>)
    requires
        a.len() == b.len(),
        b.len() == c.len(),
        forall|i: int| 0 <= i < a.len() && a[i] ==> b[i] || c[i],
    ensures
        popcount(a) <= popcount(b) + popcount(c),
    decreases a.len(),
{
    if a.len() == 0 {
    } else {
        lemma_popcount_or_le(a.drop_last(), b.drop_last(), c.drop_last());
        assert(a.map_values(|x: bool| if x { 1int } else { 0int }).drop_last() =~= a.drop_last()
            .map_values(|x: bool| if x { 1int } else { 0int }));
        assert(b.map_values(|x: bool| if x { 1int } else { 0int }).drop_last() =~= b.drop_last()
            .map_values(|x: bool| if x { 1int } else { 0int }));
        assert(c.map_values(|x: bool| if x { 1int } else { 0int }).drop_last() =~= c.drop_last()
            .map_values(|x: bool| if x { 1int } else { 0int }));
    }
}

/// Extending the prefix length beyond both bitfields does not change the
/// symmetric-difference count.
pub proof fn lemma_xor_pad(a: Seq<bool>, b: Seq<bool>, n: int)
    requires
        n >= max_len(a, b),
    ensures
        popcount(xor_upto(a, b, n)) == bits_dist(a, b),
    decreases n,
{
    let m = max_len(a, b);
    if n > m {
        assert(xor_upto(a, b, n).drop_last() =~= xor_upto(a, b, n - 1));
        assert(!xor_upto(a, b, n).last());
        assert(xor_upto(a, b, n).map_values(|x: bool| if x { 1int } else { 0int }).drop_last()
            =~= xor_upto(a, b, n - 1).map_values(|x: bool| if x { 1int } else { 0int }));
        lemma_xor_pad(a, b, n - 1);
    } else {
        assert(xor_upto(a, b, n) =~= xor_upto(a, b, m));
    }
}

pub proof fn lemma_bits_dist_nonneg(a: Seq<bool>, b: Seq<bool>)
    ensures
        bits_dist(a, b) >= 0,
{
    lemma_popcount_nonneg(xor_upto(a, b, max_len(a, b)));
}

/// The bitfield distance is symmetric.
pub proof fn lemma_bits_dist_sym(a: Seq<bool>, b: Seq<bool>)
    ensures
        bits_dist(a, b) == bits_dist(b, a),
{
    assert(xor_upto(a, b, max_len(a, b)) =~= xor_upto(b, a, max_len(b, a)));
}

/// A bitfield is at distance zero from itself.
pub proof fn lemma_bits_dist_self(a: Seq<bool>)
    ensures
        bits_dist(a, a) == 0,
{
    assert(xor_upto(a, a, max_len(a, a)) =~= Seq::new(a.len(), |i: int| false));
    lemma_popcount_le_zero(Seq::new(a.len(), |i: int| false));
}

proof fn lemma_popcount_le_zero(s: Seq<bool>)
    requires
        forall|i: int| 0 <= i < s.len() ==> !s[i],
    ensures
        popcount(s) == 0,
    decreases s.len(),
{
    if s.len() > 0 {
        assert(s.map_values(|x: bool| if x { 1int } else { 0int }).drop_last() =~= s.drop_last()
            .map_values(|x: bool| if x { 1int } else { 0int }));
        lemma_popcount_le_zero(s.drop_last());
    }
}

/// The bitfield distance obeys the triangle inequality.
pub proof fn lemma_bits_dist_triangle(a: Seq<bool>, b: Seq<bool>, c: Seq<bool>)
    ensures
        bits_dist(a, c) <= bits_dist(a, b) + bits_dist(b, c),
{
    let n = if max_len(a, c) >= b.len() {
        max_len(a, c)
    } else {
        b.len() as int
    };
    lemma_xor_pad(a, c, n);
    lemma_xor_pad(a, b, n);
    lemma_xor_pad(b, c, n);
    lemma_popcount_or_le(xor_upto(a, c, n), xor_upto(a, b, n), xor_upto(b, c, n));
}

/// Distance to the empty bitfield is the popcount.
pub proof fn lemma_bits_dist_empty(a: Seq<bool>)
    ensures
        bits_dist(a, Seq::<bool>::empty()) == popcount(a),
{
    assert(xor_upto(a, Seq::<bool>::empty(), max_len(a, Seq::<bool>::empty())).map_values(
        |x: bool| if x { 1int } else { 0int },
    ) =~= a.map_values(|x: bool| if x { 1int } else { 0int }));
}

/// The distance between two bitfields is at most the sum of their popcounts.
pub proof fn lemma_bits_dist_le_popcounts(a: Seq<bool>, b: Seq<bool>)
    ensures
        bits_dist(a, b) <= popcount(a) + popcount(b),
{
    lemma_bits_dist_triangle(a, Seq::<bool>::empty(), b);
    lemma_bits_dist_empty(a);
    lemma_bits_dist_sym(Seq::<bool>::empty(), b);
    lemma_bits_dist_empty(b);
}

/// One popcount is at most the other plus the distance between the fields.
pub proof fn lemma_popcount_le_dist(a: Seq<bool>, b: Seq<bool>)
    ensures
        popcount(a) <= bits_dist(a, b) + popcount(b),
{
    lemma_bits_dist_triangle(a, b, Seq::<bool>::empty());
    lemma_bits_dist_empty(a);
    lemma_bits_dist_empty(b);
}

/// Bit `k` of one byte, lowest bit first.
pub open spec fn nth_bit(b: u8, k: u8) -> bool {
    (b >> k) & 1 == 1
}

/// All bits of a byte string, lowest bit of the first byte first.
pub open spec fn raw_bits(bytes: Seq<u8>) -> Seq<bool> {
    Seq::new(bytes.len() * 8, |i: int| nth_bit(bytes[i / 8], (i % 8) as u8))
}

/// The position of the highest set bit, or a negative value if none is set.
pub open spec fn highest_set(s: Seq<bool>) -> int
    decreases s.len(),
{
    if s.len() == 0 {
        -1
    } else if s.last() {
        s.len() - 1
    } else {
        highest_set(s.drop_last())
    }
}

impl Bitfield {
    /// Decode a bitfield from its wire form: the bits of the bytes, lowest
    /// bit first, the highest set bit marking the length and not itself a
    /// data bit. Fails on an empty byte string and on one with no set bit.
    pub fn from_ssz_bytes(bytes: &Vec<u8>) -> (r: Option<Bitfield>)
        requires
            bytes@.len() <= 0x1000_0000,
        ensures
            r.is_some() <==> highest_set(raw_bits(bytes@)) >= 0,
            r matches Some(bf) ==> bf.bits@ == raw_bits(bytes@).take(highest_set(raw_bits(bytes@))),
    {
        let mut bits: Vec<bool> = Vec::new();
        let mut i: usize = 0;
        while i < bytes.len()
            invariant
                0 <= i <= bytes@.len(),
                bytes@.len() <= 0x1000_0000,
                bits@ =~= raw_bits(bytes@).take(8 * i as int),
            decreases bytes@.len() - i,
        {
            let b = bytes[i];
            let mut k: u8 = 0;
            while k < 8
                invariant
                    0 <= k <= 8,
                    0 <= i < bytes@.len(),
                    bytes@.len() <= 0x1000_0000,
                    b == bytes@[i as int],
                    bits@ =~= raw_bits(bytes@).take(8 * i as int + k as int),
                decreases 8 - k,
            {
                bits.push((b >> k) & 1 == 1);
                proof {
                    let n = 8 * i as int + k as int;
                    assert(raw_bits(bytes@)[n] == nth_bit(bytes@[n / 8], (n % 8) as u8));
                    assert(n / 8 == i as int && n % 8 == k as int) by (nonlinear_arith)
                        requires
                            n == 8 * i as int + k as int,
                            0 <= k < 8,
                            0 <= i,
                    ;
                    assert(bits@ =~= raw_bits(bytes@).take(n + 1));
                }
                k = k + 1;
            }
            i = i + 1;
        }
        proof {
            assert(bits@ =~= raw_bits(bytes@));
        }
        // find the length marker: the highest set bit
        let mut marker: usize = bits.len();
        while marker > 0
            invariant
                0 <= marker <= bits@.len(),
                bits@ =~= raw_bits(bytes@),
                forall|t: int| marker <= t < bits@.len() ==> !bits@[t],
                highest_set(bits@) == highest_set(bits@.take(marker as int)),
            ensures
                0 <= marker <= bits@.len(),
                bits@ =~= raw_bits(bytes@),
                highest_set(bits@) == highest_set(bits@.take(marker as int)),
                marker > 0 ==> bits@[marker - 1],
            decreases marker,
        {
            proof {
                lemma_highest_set_drop(bits@, marker as int);
            }
            if bits[marker - 1] {
                break ;
            }
            marker = marker - 1;
        }
        if marker == 0 {
            proof {
                assert(bits@.take(0) =~= Seq::<bool>::empty());
            }
            return None;
        }
        proof {
            assert(bits@.take(marker as int).last() == bits@[marker - 1]);
            assert(highest_set(bits@.take(marker as int)) == marker - 1);
        }
        bits.truncate(marker - 1);
        proof {
            assert(bits@ =~= raw_bits(bytes@).take(marker - 1));
        }
        Some(Bitfield { bits })
    }
}

/// Shortening a bit string below its clear tail keeps the highest set bit.
proof fn lemma_highest_set_drop(s: Seq<bool>, m: int)
    requires
        0 < m <= s.len(),
        forall|t: int| m <= t < s.len() ==> !s[t],
    ensures
        highest_set(s.take(m)) == if s[m - 1] {
            m - 1
        } else {
            highest_set(s.take(m - 1))
        },
    decreases s.len() - m,
{
    if m == s.len() {
        assert(s.take(m) =~= s);
        if !s[m - 1] {
            assert(s.take(m - 1) =~= s.drop_last());
        }
    } else {
        lemma_highest_set_drop(s, m + 1);
        assert(s.take(m + 1).drop_last() =~= s.take(m));
        assert(!s.take(m + 1).last());
        if !s[m - 1] {
            assert(s.take(m).drop_last() =~= s.take(m - 1));
        }
    }
}

/// Two bitfields agree at every position, positions past either end reading
/// as clear. Bitfields differing only in trailing clear bits are equivalent.
pub open spec fn bits_equiv(a: Seq<bool>, b: Seq<bool>) -> bool {
    forall|i: int| (#[trigger] bit_at(a, i)) == (#[trigger] bit_at(b, i))
}

/// The bitfield distance vanishes exactly between equivalent bitfields.
pub proof fn lemma_bits_dist_zero(a: Seq<bool>, b: Seq<bool>)
    ensures
        (bits_dist(a, b) == 0) <==> bits_equiv(a, b),
{
    let n = max_len(a, b);
    let x = xor_upto(a, b, n);
    if bits_equiv(a, b) {
        lemma_popcount_le_zero(x);
    }
    if bits_dist(a, b) == 0 {
        assert forall|i: int| bit_at(a, i) == bit_at(b, i) by {
            if bit_at(a, i) != bit_at(b, i) {
                assert(0 <= i < n);
                assert(x[i]);
                let v = x.map_values(|t: bool| if t { 1int } else { 0int });
                crate::sums::lemma_seq_sum_element_le(v, i);
                assert(v[i] == 1);
            }
        }
    }
}
impl Bitfield {
    /// The bit at `i`, reading past the end as clear.
    pub fn get(&self, i: usize) -> (b: bool)
        ensures
            b == bit_at(self.bits@, i as int),
    {
        if i < self.bits.len() {
            self.bits[i]
        } else {
            false
        }
    }

    /// Number of set bits.
    pub fn num_set_bits(&self) -> (n: usize)
        ensures
            n == popcount(self.bits@),
    {
        let mut n: usize = 0;
        let mut i: usize = 0;
        proof {
            lemma_popcount_bound(self.bits@);
        }
        while i < self.bits.len()
            invariant
                0 <= i <= self.bits.len(),
                n == popcount(self.bits@.take(i as int)),
                n <= i,
            decreases self.bits.len() - i,
        {
            proof {
                assert(self.bits@.take(i + 1).drop_last() =~= self.bits@.take(i as int));
                assert(self.bits@.take(i + 1).map_values(|x: bool| if x { 1int } else { 0int })
                    .drop_last() =~= self.bits@.take(i as int).map_values(
                    |x: bool| if x { 1int } else { 0int },
                ));
            }
            if self.bits[i] {
                n = n + 1;
            }
            i = i + 1;
        }
        proof {
            assert(self.bits@.take(self.bits@.len() as int) =~= self.bits@);
        }
        n
    }

    /// The number of positions on which two bitfields disagree, positions
    /// past either end reading as clear.
    pub fn distance(&self, other: &Bitfield) -> (d: usize)
        ensures
            d == bits_dist(self.bits@, other.bits@),
    {
        let a = &self.bits;
        let b = &other.bits;
        let n = if a.len() >= b.len() {
            a.len()
        } else {
            b.len()
        };
        let mut d: usize = 0;
        let mut i: usize = 0;
        while i < n
            invariant
                0 <= i <= n,
                n == max_len(a@, b@),
                a@ == self.bits@,
                b@ == other.bits@,
                d == popcount(xor_upto(a@, b@, i as int)),
                d <= i,
            decreases n - i,
        {
            proof {
                assert(xor_upto(a@, b@, i + 1).drop_last() =~= xor_upto(a@, b@, i as int));
                assert(xor_upto(a@, b@, i + 1).map_values(|x: bool| if x { 1int } else { 0int })
                    .drop_last() =~= xor_upto(a@, b@, i as int).map_values(
                    |x: bool| if x { 1int } else { 0int },
                ));
                lemma_popcount_bound(xor_upto(a@, b@, i as int));
            }
            if self.get(i) != other.get(i) {
                d = d + 1;
            }
            i = i + 1;
        }
        d
    }
}

} // verus!
