//! Bit scanning: the mathematical reading of a mask as its ascending sequence
//! of set-bit positions, and the lazy scanners built on it.

use vstd::prelude::*;

verus! {

broadcast use vstd::std_specs::bits::axiom_u32_trailing_zeros;

/// True when bit `i` of `m` is set (meaningful for `i < 32`).
pub open spec fn bit(m: u32, i: u32) -> bool {
    (m >> i) & 1u32 == 1u32
}

/// The positions of the set bits of `m` that are at least `i`, ascending.
pub open spec fn bits_from(m: u32, i: nat) -> Seq<u32>
    decreases 32 - i,
{
    if i >= 32 {
        Seq::empty()
    } else if bit(m, i as u32) {
        seq![i as u32] + bits_from(m, i + 1)
    } else {
        bits_from(m, i + 1)
    }
}

/// The set-bit positions of `m`, ascending: the mathematical reading of a mask.
pub open spec fn bits_of(m: u32) -> Seq<u32> {
    bits_from(m, 0)
}

/// Pointwise reading of the bitwise operations on masks.
pub proof fn lemma_bit_ops()
    by (bit_vector)
    ensures
        forall|x: u32, y: u32, j: u32| j < 32 ==> (#[trigger] bit(x | y, j) == (bit(x, j) || bit(
            y,
            j,
        ))),
        forall|x: u32, y: u32, j: u32| j < 32 ==> (#[trigger] bit(x & y, j) == (bit(x, j) && bit(
            y,
            j,
        ))),
        forall|x: u32, y: u32, j: u32| j < 32 ==> (#[trigger] bit(x ^ y, j) == (bit(x, j) != bit(
            y,
            j,
        ))),
        forall|x: u32, j: u32| j < 32 ==> (#[trigger] bit(!x, j) == !bit(x, j)),
        forall|b: u32, j: u32| b < 32 && j < 32 ==> (#[trigger] bit(1u32 << b, j) == (j == b)),
        forall|j: u32| j < 32 ==> !(#[trigger] bit(0u32, j)),
        forall|x: u32, j: u32| j < 32 ==> ((x & (1u32 << j) != 0) == #[trigger] bit(x, j)),
        forall|j: u32| j < 32 ==> (#[trigger] bit(0x1ffffffu32, j) == (j < 25)),
        forall|x: u32, j: u32| j < 25 ==> !(#[trigger] bit(x << 25, j)),
{
}

/// A set bit of a mask confined to the low 25 bits lies below 25.
pub proof fn lemma_bit_below_25(x: u32, f: u32)
    by (bit_vector)
    requires
        f < 32,
        (x >> f) & 1u32 == 1u32,
        x & !0x1ffffffu32 == 0,
    ensures
        f < 25,
{
}

/// A set bit of a mask confined to the low 16 bits lies below 16.
pub proof fn lemma_bit_below_16(x: u32, f: u32)
    by (bit_vector)
    requires
        f < 32,
        (x >> f) & 1u32 == 1u32,
        x & !0xffffu32 == 0,
    ensures
        f < 16,
{
}

/// A mask intersected with `m` is confined under `m`.
pub proof fn lemma_masked_confined(x: u32, m: u32)
    by (bit_vector)
    ensures
        (x & m) & !m == 0,
{
}

/// Intersecting a mask confined under `m` stays confined under `m`.
pub proof fn lemma_and_keeps_bound(x: u32, y: u32, m: u32)
    by (bit_vector)
    requires
        x & !m == 0,
    ensures
        (x & y) & !m == 0,
{
}

/// Every element of `bits_from(m, i)` is a set bit of `m` in `[i, 32)`, and
/// every such bit occurs in it.
pub proof fn lemma_bits_from_members(m: u32, i: nat)
    ensures
        forall|k: int|
            0 <= k < bits_from(m, i).len() ==> i <= #[trigger] bits_from(m, i)[k] < 32 && bit(
                m,
                bits_from(m, i)[k],
            ),
        forall|j: u32| i <= j < 32 && #[trigger] bit(m, j) ==> bits_from(m, i).contains(j),
    decreases 32 - i,
{
    if i < 32 {
        lemma_bits_from_members(m, i + 1);
        assert forall|j: u32| i <= j < 32 && #[trigger] bit(m, j) implies bits_from(m, i).contains(
            j,
        ) by {
            if bit(m, i as u32) {
                if j == i {
                    assert(bits_from(m, i)[0] == j);
                } else {
                    let k = choose|k: int|
                        0 <= k < bits_from(m, i + 1).len() && #[trigger] bits_from(m, i + 1)[k]
                            == j;
                    assert(bits_from(m, i)[k + 1] == j);
                }
            } else {
                assert(j != i);
            }
        }
    }
}

/// `bits_from` scans the same from `i` and from `k` when no bit lies in `[i, k)`.
pub proof fn lemma_bits_from_skip(m: u32, i: nat, k: nat)
    requires
        i <= k <= 32,
        forall|j: u32| i <= j < k ==> !bit(m, j),
    ensures
        bits_from(m, i) == bits_from(m, k),
    decreases k - i,
{
    if i < k {
        assert(!bit(m, i as u32));
        lemma_bits_from_skip(m, i + 1, k);
    }
}

/// Masks that agree on every bit at or above `i` scan the same from `i`.
pub proof fn lemma_bits_from_agree(m1: u32, m2: u32, i: nat)
    requires
        forall|j: u32| i <= j < 32 ==> bit(m1, j) == bit(m2, j),
    ensures
        bits_from(m1, i) == bits_from(m2, i),
    decreases 32 - i,
{
    if i < 32 {
        assert(bit(m1, i as u32) == bit(m2, i as u32));
        lemma_bits_from_agree(m1, m2, i + 1);
    }
}

/// At most `32 - i` set bits remain from position `i`.
pub proof fn lemma_bits_from_len(m: u32, i: nat)
    requires
        i <= 32,
    ensures
        bits_from(m, i).len() <= 32 - i,
    decreases 32 - i,
{
    if i < 32 {
        lemma_bits_from_len(m, i + 1);
    }
}

/// The empty mask scans to the empty sequence.
pub proof fn lemma_bits_of_zero()
    ensures
        bits_of(0u32) == Seq::<u32>::empty(),
{
    assert(forall|j: u32| j < 32 ==> (0u32 >> j) & 1u32 != 1u32) by (bit_vector);
    lemma_bits_from_skip(0u32, 0, 32);
}

/// Clearing the lowest set bit of a non-empty mask drops the first scanned position.
pub proof fn lemma_bits_split_lowest(m: u32, b: u32)
    requires
        m != 0,
        b < 32,
        bit(m, b),
        forall|j: u32| j < b ==> !bit(m, j),
    ensures
        bits_of(m).len() > 0,
        bits_of(m)[0] == b,
        bits_of(m & !(1u32 << b)) == bits_of(m).drop_first(),
        m & !(1u32 << b) < m,
{
    let m2 = m & !(1u32 << b);
    assert(forall|j: u32| j < 32 ==> (bit(m2, j) <==> (bit(m, j) && j != b))) by (bit_vector)
        requires
            b < 32,
            m2 == m & !(1u32 << b),
    ;
    lemma_bits_from_skip(m, 0, b as nat);
    assert(bits_of(m) == seq![b] + bits_from(m, b as nat + 1));
    lemma_bits_from_skip(m2, 0, b as nat + 1);
    lemma_bits_from_agree(m2, m, b as nat + 1);
    assert(bits_of(m2) =~= bits_of(m).drop_first());
    assert(m & !(1u32 << b) < m) by (bit_vector)
        requires
            b < 32,
            (m >> b) & 1u32 == 1u32,
    ;
}

/// A lazy, single-pass scanner over the set bits of a mask, lowest first;
/// advancing removes the bit it reports from the mask.
pub struct BitIter(pub u32);

impl BitIter {
    /// The bit positions still to be produced, ascending.
    pub open spec fn remaining(self) -> Seq<u32> {
        bits_of(self.0)
    }

    /// Produces the lowest remaining set bit, or nothing once the mask is spent.
    pub fn next(&mut self) -> (r: Option<u32>)
        ensures
            old(self).remaining().len() == 0 ==> r is None && *final(self) == *old(self)
                && old(self).0 == 0,
            old(self).remaining().len() > 0 ==> {
                let b = old(self).remaining()[0];
                &&& r == Some(b)
                &&& b < 32 && bit(old(self).0, b)
                &&& forall|j: u32| j < b ==> !bit(old(self).0, j)
                &&& final(self).0 == old(self).0 & !(1u32 << b)
                &&& final(self).0 < old(self).0
                &&& final(self).remaining() == old(self).remaining().drop_first()
            },
    {
        if self.0 == 0 {
            proof {
                lemma_bits_of_zero();
            }
            None
        } else {
            let b = self.0.trailing_zeros();
            proof {
                lemma_bits_split_lowest(self.0, b);
            }
            self.0 = self.0 & !(1u32 << b);
            Some(b)
        }
    }
}

/// The scanner over a side's held cards: the set bits of the low 16 bits of a
/// card field, lowest first.
pub struct CardIter(pub u32);

impl CardIter {
    /// Starts a scan over the low 16 bits of `cards`.
    pub fn new(cards: u32) -> (r: CardIter)
        ensures
            r.0 == cards & 0xffffu32,
    {
        CardIter(cards & 0xffff)
    }

    /// The card indices still to be produced, ascending.
    pub open spec fn remaining(self) -> Seq<u32> {
        bits_of(self.0)
    }

    /// Produces the lowest remaining card index, or nothing once the mask is spent.
    pub fn next(&mut self) -> (r: Option<u32>)
        ensures
            old(self).remaining().len() == 0 ==> r is None && *final(self) == *old(self)
                && old(self).0 == 0,
            old(self).remaining().len() > 0 ==> {
                let b = old(self).remaining()[0];
                &&& r == Some(b)
                &&& b < 32 && bit(old(self).0, b)
                &&& forall|j: u32| j < b ==> !bit(old(self).0, j)
                &&& final(self).0 == old(self).0 & !(1u32 << b)
                &&& final(self).0 < old(self).0
                &&& final(self).remaining() == old(self).remaining().drop_first()
            },
    {
        if self.0 == 0 {
            proof {
                lemma_bits_of_zero();
            }
            None
        } else {
            let b = self.0.trailing_zeros();
            proof {
                lemma_bits_split_lowest(self.0, b);
            }
            self.0 = self.0 & !(1u32 << b);
            Some(b)
        }
    }
}

/// Counts the set bits of `m`: the length of its bit scan.
pub fn popcount(m: u32) -> (n: u32)
    ensures
        n == bits_of(m).len(),
{
    proof {
        lemma_bits_from_len(m, 0);
    }
    let mut it = BitIter(m);
    let mut n: u32 = 0;
    loop
        invariant
            n + it.remaining().len() == bits_of(m).len(),
            bits_of(m).len() <= 32,
        decreases it.remaining().len(),
    {
        match it.next() {
            Some(_) => {
                n = n + 1;
            },
            None => {
                return n;
            },
        }
    }
}

/// The low 25 bits of `m` read back to front, from position `j` up: the board
/// seen from the opposite side.
pub open spec fn rev25_from(m: u32, j: nat) -> u32
    decreases 25 - j,
{
    if j >= 25 {
        0u32
    } else if bit(m, j as u32) {
        (1u32 << ((24 - j) as u32)) | rev25_from(m, j + 1)
    } else {
        rev25_from(m, j + 1)
    }
}

/// The low 25 bits of `m` reversed: square `s` maps to square `24 - s`.
pub open spec fn rev25(m: u32) -> u32 {
    rev25_from(m, 0)
}

proof fn lemma_rev25_from(m: u32, j: nat)
    requires
        j <= 25,
    ensures
        forall|k: u32|
            k < 32 ==> (#[trigger] bit(rev25_from(m, j), k) <==> (k + j < 25 && bit(
                m,
                (24 - k) as u32,
            ))),
    decreases 25 - j,
{
    lemma_bit_ops();
    if j < 25 {
        lemma_rev25_from(m, j + 1);
        assert forall|k: u32| k < 32 implies (#[trigger] bit(rev25_from(m, j), k) <==> (k + j < 25
            && bit(m, (24 - k) as u32))) by {
            let c = (24 - j) as u32;
            if k == c {
                assert((24 - k) as u32 == j as u32);
            }
            if bit(m, j as u32) {
                assert(rev25_from(m, j) == (1u32 << c) | rev25_from(m, j + 1));
                assert(bit((1u32 << c) | rev25_from(m, j + 1), k) == (bit(1u32 << c, k) || bit(
                    rev25_from(m, j + 1),
                    k,
                )));
                assert(bit(1u32 << c, k) == (k == c));
            } else {
                assert(rev25_from(m, j) == rev25_from(m, j + 1));
                assert(bit(rev25_from(m, j + 1), k) <==> (k + j + 1 < 25 && bit(
                    m,
                    (24 - k) as u32,
                )));
            }
        }
    }
}

/// Pointwise reading of the 25-bit reversal.
pub proof fn lemma_rev25(m: u32)
    ensures
        forall|k: u32|
            k < 32 ==> (#[trigger] bit(rev25(m), k) <==> (k < 25 && bit(m, (24 - k) as u32))),
{
    lemma_rev25_from(m, 0);
}

/// Reverses the 25-bit board part of `m` (square `s` to square `24 - s`),
/// dropping any higher bits.
pub fn reverse25(m: u32) -> (r: u32)
    ensures
        r == rev25(m),
{
    let mut r: u32 = 0;
    let mut j: u32 = 25;
    while j > 0
        invariant
            j <= 25,
            r == rev25_from(m, j as nat),
        decreases j,
    {
        j = j - 1;
        if (m >> j) & 1 == 1 {
            r = (1u32 << (24 - j)) | r;
        }
    }
    r
}

} // verus!
