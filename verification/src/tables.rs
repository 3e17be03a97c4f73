//! The card geometry tables: the external collaborator that says, for each of
//! the sixteen cards, which squares a piece can move to from each origin and,
//! symmetrically, from which squares each destination can be reached.

use vstd::prelude::*;
use crate::bits::bit;

verus! {

/// The full 5x5 board: bits 0 to 24 of a mask.
pub const PIECE_MASK: u32 = 0x1ffffff;

/// Precomputed movement masks, indexed by card identity (0 to 15) and square
/// (0 to 24). `shifted[c][s]` holds the squares a piece on `s` can reach with
/// card `c`, in the mover's frame; `shifted_r[c][s]` holds the squares from
/// which `s` can be reached with card `c`. The tables are built outside this
/// crate; [`CardTables::wf`] states the contract the core relies on.
pub struct CardTables {
    pub shifted: Vec<Vec<u32>>,
    pub shifted_r: Vec<Vec<u32>>,
}

impl CardTables {
    /// The destination mask for card `card` from square `sq`.
    pub open spec fn dst(self, card: u32, sq: u32) -> u32 {
        self.shifted@[card as int]@[sq as int]
    }

    /// The origin mask for card `card` towards square `sq`.
    pub open spec fn src(self, card: u32, sq: u32) -> u32 {
        self.shifted_r@[card as int]@[sq as int]
    }

    /// Well-formedness: both tables are 16 by 25, every mask stays on the
    /// board, and the origin table is exactly the reverse reading of the
    /// destination table.
    pub open spec fn wf(self) -> bool {
        &&& self.shifted@.len() == 16
        &&& self.shifted_r@.len() == 16
        &&& forall|c: int| 0 <= c < 16 ==> (#[trigger] self.shifted@[c])@.len() == 25
        &&& forall|c: int| 0 <= c < 16 ==> (#[trigger] self.shifted_r@[c])@.len() == 25
        &&& forall|c: u32, s: u32| c < 16 && s < 25 ==> #[trigger] self.dst(c, s) & !PIECE_MASK
            == 0
        &&& forall|c: u32, s: u32| c < 16 && s < 25 ==> #[trigger] self.src(c, s) & !PIECE_MASK
            == 0
        &&& forall|c: u32, f: u32, t: u32|
            c < 16 && f < 25 && t < 25 ==> (#[trigger] bit(self.src(c, t), f) <==> #[trigger] bit(
                self.dst(c, f),
                t,
            ))
    }

    /// Validates the tables at the construction boundary: the dimensions, the
    /// confinement of every mask to the board, and the reverse-reading
    /// relation between the two tables. Tables built outside this crate
    /// should pass through this check before the core relies on them.
    pub fn is_valid(&self) -> (r: bool)
        ensures
            r == self.wf(),
    {
        if self.shifted.len() != 16 || self.shifted_r.len() != 16 {
            return false;
        }
        let mut c: u32 = 0;
        while c < 16
            invariant
                c <= 16,
                self.shifted@.len() == 16,
                self.shifted_r@.len() == 16,
                forall|k: int| 0 <= k < c ==> (#[trigger] self.shifted@[k])@.len() == 25,
                forall|k: int| 0 <= k < c ==> (#[trigger] self.shifted_r@[k])@.len() == 25,
                forall|k: u32, s: u32| k < c && s < 25 ==> #[trigger] self.dst(k, s) & !PIECE_MASK
                    == 0,
                forall|k: u32, s: u32| k < c && s < 25 ==> #[trigger] self.src(k, s) & !PIECE_MASK
                    == 0,
            decreases 16 - c,
        {
            if self.shifted[c as usize].len() != 25 || self.shifted_r[c as usize].len() != 25 {
                return false;
            }
            let mut s: u32 = 0;
            while s < 25
                invariant
                    s <= 25,
                    c < 16,
                    self.shifted@.len() == 16,
                    self.shifted_r@.len() == 16,
                    (self.shifted@[c as int])@.len() == 25,
                    (self.shifted_r@[c as int])@.len() == 25,
                    forall|j: u32| j < s ==> #[trigger] self.dst(c, j) & !PIECE_MASK == 0,
                    forall|j: u32| j < s ==> #[trigger] self.src(c, j) & !PIECE_MASK == 0,
                decreases 25 - s,
            {
                if self.shifted[c as usize][s as usize] & !PIECE_MASK != 0 {
                    proof {
                        assert(self.dst(c, s) & !PIECE_MASK != 0);
                    }
                    return false;
                }
                if self.shifted_r[c as usize][s as usize] & !PIECE_MASK != 0 {
                    proof {
                        assert(self.src(c, s) & !PIECE_MASK != 0);
                    }
                    return false;
                }
                s = s + 1;
            }
            c = c + 1;
        }
        let mut c: u32 = 0;
        while c < 16
            invariant
                c <= 16,
                self.shifted@.len() == 16,
                self.shifted_r@.len() == 16,
                forall|k: int| 0 <= k < 16 ==> (#[trigger] self.shifted@[k])@.len() == 25,
                forall|k: int| 0 <= k < 16 ==> (#[trigger] self.shifted_r@[k])@.len() == 25,
                forall|k: u32, s: u32| k < 16 && s < 25 ==> #[trigger] self.dst(k, s) & !PIECE_MASK
                    == 0,
                forall|k: u32, s: u32| k < 16 && s < 25 ==> #[trigger] self.src(k, s) & !PIECE_MASK
                    == 0,
                forall|k: u32, f: u32, to: u32|
                    k < c && f < 25 && to < 25 ==> (#[trigger] bit(self.src(k, to), f)
                        <==> #[trigger] bit(self.dst(k, f), to)),
            decreases 16 - c,
        {
            let mut f: u32 = 0;
            while f < 25
                invariant
                    f <= 25,
                    c < 16,
                    self.shifted@.len() == 16,
                    self.shifted_r@.len() == 16,
                    forall|k: int| 0 <= k < 16 ==> (#[trigger] self.shifted@[k])@.len() == 25,
                    forall|k: int| 0 <= k < 16 ==> (#[trigger] self.shifted_r@[k])@.len() == 25,
                    forall|j: u32, to: u32|
                        j < f && to < 25 ==> (#[trigger] bit(self.src(c, to), j) <==> #[trigger] bit(
                            self.dst(c, j),
                            to,
                        )),
                decreases 25 - f,
            {
                let mut to: u32 = 0;
                while to < 25
                    invariant
                        to <= 25,
                        c < 16,
                        f < 25,
                        self.shifted@.len() == 16,
                        self.shifted_r@.len() == 16,
                        forall|k: int| 0 <= k < 16 ==> (#[trigger] self.shifted@[k])@.len() == 25,
                        forall|k: int| 0 <= k < 16 ==> (#[trigger] self.shifted_r@[k])@.len()
                            == 25,
                        forall|j: u32|
                            j < to ==> (#[trigger] bit(self.src(c, j), f) <==> bit(
                                self.dst(c, f),
                                j,
                            )),
                    decreases 25 - to,
                {
                    let fwd = (self.shifted[c as usize][f as usize] >> to) & 1 == 1;
                    let rev = (self.shifted_r[c as usize][to as usize] >> f) & 1 == 1;
                    if fwd != rev {
                        proof {
                            assert(bit(self.src(c, to), f) != bit(self.dst(c, f), to));
                        }
                        return false;
                    }
                    to = to + 1;
                }
                f = f + 1;
            }
            c = c + 1;
        }
        true
    }

    /// The destination mask for card `card` from square `sq`.
    pub fn dst_mask(&self, card: u32, sq: u32) -> (r: u32)
        requires
            self.wf(),
            card < 16,
            sq < 25,
        ensures
            r == self.dst(card, sq),
    {
        self.shifted[card as usize][sq as usize]
    }

    /// The origin mask for card `card` towards square `sq`.
    pub fn src_mask(&self, card: u32, sq: u32) -> (r: u32)
        requires
            self.wf(),
            card < 16,
            sq < 25,
        ensures
            r == self.src(card, sq),
    {
        self.shifted_r[card as usize][sq as usize]
    }
}

} // verus!
