//! The game position and its transitions: terminal oracles, the move count,
//! and the lazy forward and retrograde enumerators.

use vstd::prelude::*;
use crate::bits::{bit, bits_of, rev25, BitIter, CardIter};
use crate::bits::{
    lemma_and_keeps_bound, lemma_bit_below_16, lemma_bit_below_25, lemma_bit_ops,
    lemma_bits_from_len, lemma_bits_from_members, lemma_bits_of_zero, lemma_masked_confined,
    popcount, reverse25,
};
use crate::tables::{CardTables, PIECE_MASK};

verus! {

/// One immutable game position.
///
/// `my` describes the side to move: bits 0 to 24 are its piece mask on the
/// 5x5 board (row-major, square = row * 5 + column, king included), bits 25
/// and up hold its king's square index. `other` is the same for the side not
/// to move, with the board read from that side (square `s` here is square
/// `24 - s` in the mover's frame). `cards` holds the mover's two cards in its
/// low 16 bits and the other side's two in its high 16 bits; `table` is the
/// index of the single card resting between the players.
#[derive(Clone, Copy, PartialEq, Eq, Structural, Hash, Default, Debug)]
pub struct Game {
    pub my: u32,
    pub other: u32,
    pub cards: u32,
    pub table: u32,
}

/// One forward move: the origin square, the card played and the destination
/// square, all in the mover's frame. For a retrograde step, `to` is the square
/// the moving piece now stands on, `from` the square it came from (both in the
/// frame of the side that moved), and `card` the card that left the table.
pub struct Move {
    pub from: u32,
    pub card: u32,
    pub to: u32,
}

/// The mask holding exactly the two bits `a` and `b`.
pub open spec fn pair_mask(a: u32, b: u32) -> u32 {
    (1u32 << a) | (1u32 << b)
}

/// Exactly two distinct cards in the low 16 bits of `m`.
pub open spec fn two_cards(m: u32) -> bool {
    exists|a: u32, b: u32| a < b < 16 && m == #[trigger] pair_mask(a, b)
}

impl Game {
    /// The square index of the mover's king.
    pub open spec fn my_king(self) -> u32 {
        self.my >> 25
    }

    /// The square index of the other side's king, in that side's frame.
    pub open spec fn other_king(self) -> u32 {
        self.other >> 25
    }

    /// The mover's two held cards, as a 16-bit mask.
    pub open spec fn my_cards_mask(self) -> u32 {
        self.cards & 0xffff
    }

    /// The other side's two held cards, as a 16-bit mask.
    pub open spec fn other_cards_mask(self) -> u32 {
        self.cards >> 16
    }

    /// The mover's piece mask, king bits stripped.
    pub open spec fn my_pieces(self) -> u32 {
        self.my & PIECE_MASK
    }

    /// The other side's piece mask, king bits stripped.
    pub open spec fn other_pieces(self) -> u32 {
        self.other & PIECE_MASK
    }

    /// The other side's king as a one-bit mask in the mover's frame.
    pub open spec fn other_king_bit(self) -> u32 {
        (1u32 << 24) >> self.other_king()
    }

    /// Structural well-formedness: king indices on the board, a table card
    /// index below 16, and exactly two cards in each hand.
    pub open spec fn wf(self) -> bool {
        &&& self.my_king() < 25
        &&& self.other_king() < 25
        &&& self.table < 16
        &&& two_cards(self.my_cards_mask())
        &&& two_cards(self.other_cards_mask())
    }

    /// The five card identities in play are pairwise distinct: the two hands
    /// share no card, and the table card sits in neither hand.
    pub open spec fn cards_distinct(self) -> bool {
        &&& self.my_cards_mask() & self.other_cards_mask() == 0
        &&& (self.my_cards_mask() | self.other_cards_mask()) & (1u32 << self.table) == 0
    }

    /// No square is occupied by both sides.
    pub open spec fn boards_disjoint(self) -> bool {
        forall|s: u32| s < 25 ==> !(#[trigger] bit(self.my, s) && bit(self.other, (24 - s) as u32))
    }

    /// The mover has lost: the opponent's king breached the mover's arch, or
    /// the mover's king square is no longer occupied (the king was captured).
    pub open spec fn loss_spec(self) -> bool {
        self.other_king() == 22 || self.my & (1u32 << self.my_king()) == 0
    }

    /// [`Game::loss_spec`] seen from the other side.
    pub open spec fn other_loss_spec(self) -> bool {
        self.my_king() == 22 || self.other & (1u32 << self.other_king()) == 0
    }

    /// The number of the mover's pieces on the board.
    pub fn count_pieces(&self) -> (n: usize)
        ensures
            n == bits_of(self.my_pieces()).len(),
    {
        popcount(self.my & PIECE_MASK) as usize
    }

    /// Whether the side to move has already lost.
    pub fn is_loss(&self) -> (r: bool)
        requires
            self.my_king() < 32,
        ensures
            r == self.loss_spec(),
    {
        self.other >> 25 == 22 || self.my & (1u32 << (self.my >> 25)) == 0
    }

    /// Whether the side not to move has already lost.
    pub fn is_other_loss(&self) -> (r: bool)
        requires
            self.other_king() < 32,
        ensures
            r == self.other_loss_spec(),
    {
        self.my >> 25 == 22 || self.other & (1u32 << (self.other >> 25)) == 0
    }

    /// Scanner over the mover's pieces.
    fn next_my(&self) -> (r: BitIter)
        ensures
            r.0 == self.my_pieces(),
    {
        BitIter(self.my & PIECE_MASK)
    }

    /// Scanner over the other side's pieces.
    pub fn next_other(&self) -> (r: BitIter)
        ensures
            r.0 == self.other_pieces(),
    {
        BitIter(self.other & PIECE_MASK)
    }

    /// Scanner over the mover's two cards.
    fn next_my_card(&self) -> (r: CardIter)
        ensures
            r.0 == self.my_cards_mask(),
    {
        CardIter::new(self.cards)
    }

    /// Scanner over the other side's two cards.
    fn next_other_card(&self) -> (r: CardIter)
        ensures
            r.0 == self.other_cards_mask(),
    {
        proof {
            let c = self.cards;
            assert((c >> 16) & 0xffffu32 == c >> 16) by (bit_vector);
        }
        CardIter::new(self.cards >> 16)
    }

    /// The destinations of `card` from `from` that the mover does not occupy.
    pub open spec fn dests(self, t: CardTables, from: u32, card: u32) -> u32 {
        !self.my & t.dst(card, from)
    }

    /// The moves from `from` with `card`, by ascending destination.
    pub open spec fn moves_for(self, t: CardTables, from: u32, card: u32) -> Seq<Move> {
        bits_of(self.dests(t, from, card)).map_values(
            |to: u32| Move { from: from, card: card, to: to },
        )
    }

    /// The moves from `from` with each card of `cs`, in that order.
    pub open spec fn moves_cards(self, t: CardTables, from: u32, cs: Seq<u32>) -> Seq<Move>
        decreases cs.len(),
    {
        if cs.len() == 0 {
            Seq::empty()
        } else {
            self.moves_for(t, from, cs[0]) + self.moves_cards(t, from, cs.drop_first())
        }
    }

    /// The moves from each origin of `fs` with the mover's cards, in that order.
    pub open spec fn moves_froms(self, t: CardTables, fs: Seq<u32>) -> Seq<Move>
        decreases fs.len(),
    {
        if fs.len() == 0 {
            Seq::empty()
        } else {
            self.moves_cards(t, fs[0], bits_of(self.my_cards_mask())) + self.moves_froms(
                t,
                fs.drop_first(),
            )
        }
    }

    /// Every legal move of the side to move, in enumeration order: by origin
    /// square, then by card, then by destination square, each ascending.
    pub open spec fn moves(self, t: CardTables) -> Seq<Move> {
        self.moves_froms(t, bits_of(self.my_pieces()))
    }

    /// The position after playing `m`: the moved (and, for a king move,
    /// king-index-updated) mover mask becomes the new `other`, the opponent
    /// mask loses any captured piece and becomes the new `my`, the played
    /// card and the table card trade places, and the hands swap sides.
    pub open spec fn step(self, m: Move) -> Game {
        let moved0 = self.my ^ (1u32 << m.from) ^ (1u32 << m.to);
        let moved = if m.from == self.my_king() {
            (moved0 & PIECE_MASK) | (m.to << 25)
        } else {
            moved0
        };
        let mc = self.cards ^ (1u32 << m.card) ^ (1u32 << self.table);
        Game {
            my: !((1u32 << 24) >> m.to) & self.other,
            other: moved,
            cards: (mc << 16) | (mc >> 16),
            table: m.card,
        }
    }

    /// The squares that cannot be retrograde origins for a piece now on `to`
    /// (in the other side's frame): squares the mover occupies, and the temple arch
    /// square when the moved piece was the other side's king.
    pub open spec fn back_blockers(self, to: u32) -> u32 {
        if to == self.other_king() {
            rev25(self.my) | (1u32 << 22)
        } else {
            rev25(self.my)
        }
    }

    /// Candidate origins of the last move onto `to` (both in the frame of the
    /// side that moved): squares from which the table card reaches `to`, not
    /// occupied now by either side, nor blocked by [`Game::back_blockers`].
    pub open spec fn back_froms(self, t: CardTables, to: u32) -> u32 {
        !self.back_blockers(to) & (!self.other & t.src(self.table, to))
    }

    /// The predecessor position for a retrograde step `m`: the moved piece
    /// returns from `m.to` to `m.from` in the other side's mask (which becomes
    /// the new mover), the card swap is undone with `m.card` returning to the
    /// other side's hand from the table, and any captured piece is left off
    /// the board.
    pub open spec fn back_step(self, m: Move) -> Game {
        let sw = (self.cards << 16) | (self.cards >> 16);
        let cards = sw ^ (1u32 << m.card) ^ (1u32 << self.table);
        let o0 = self.other ^ (1u32 << m.to) ^ (1u32 << m.from);
        let o = if m.to == self.other_king() {
            (o0 & PIECE_MASK) | (m.from << 25)
        } else {
            o0
        };
        Game { my: o, other: self.my, cards: cards, table: m.card }
    }

    /// The square (as a one-bit mask in the current mover's frame) that the
    /// retrograde step `m` frees: where a captured piece may have stood.
    pub open spec fn back_mask(self, m: Move) -> u32 {
        (1u32 << 24) >> m.to
    }

    /// The retrograde steps onto `to` crediting `m.card` to the prior table,
    /// by ascending origin.
    pub open spec fn back_moves_for(self, t: CardTables, to: u32, card: u32) -> Seq<Move> {
        bits_of(self.back_froms(t, to)).map_values(
            |from: u32| Move { from: from, card: card, to: to },
        )
    }

    /// The retrograde steps onto `to` for each card of `cs`, in that order.
    pub open spec fn back_moves_cards(self, t: CardTables, to: u32, cs: Seq<u32>) -> Seq<Move>
        decreases cs.len(),
    {
        if cs.len() == 0 {
            Seq::empty()
        } else {
            self.back_moves_for(t, to, cs[0]) + self.back_moves_cards(t, to, cs.drop_first())
        }
    }

    /// The retrograde steps onto each square of `ts`, in that order.
    pub open spec fn back_moves_tos(self, t: CardTables, ts: Seq<u32>) -> Seq<Move>
        decreases ts.len(),
    {
        if ts.len() == 0 {
            Seq::empty()
        } else {
            self.back_moves_cards(t, ts[0], bits_of(self.other_cards_mask())) + self.back_moves_tos(
                t,
                ts.drop_first(),
            )
        }
    }

    /// Every retrograde step of this position, in enumeration order: by the
    /// moved piece's current square, then by the card that left the table,
    /// then by origin square, each ascending.
    pub open spec fn back_moves(self, t: CardTables) -> Seq<Move> {
        self.back_moves_tos(t, bits_of(self.other_pieces()))
    }

    /// Scanner over the destinations of `card` from `from` open to the mover.
    fn next_to(&self, t: &CardTables, from: u32, card: u32) -> (r: BitIter)
        requires
            t.wf(),
            from < 25,
            card < 16,
        ensures
            r.0 == self.dests(*t, from, card),
    {
        BitIter(!self.my & t.dst_mask(card, from))
    }

    /// Scanner over the candidate retrograde origins towards `to` with `card`.
    fn next_from(&self, t: &CardTables, to: u32, card: u32) -> (r: BitIter)
        requires
            t.wf(),
            to < 25,
            card < 16,
        ensures
            r.0 == !self.back_blockers(to) & (!self.other & t.src(card, to)),
    {
        let shifted = t.src_mask(card, to);
        let mut my_rev = reverse25(self.my);
        if to == self.other >> 25 {
            my_rev = my_rev | (1u32 << 22);
        }
        BitIter(!my_rev & (!self.other & shifted))
    }

    /// Counts the moves from origin `f` over the mover's full hand.
    fn count_moves_from(&self, t: &CardTables, f: u32) -> (n: u32)
        requires
            t.wf(),
            f < 25,
        ensures
            n == self.moves_cards(*t, f, bits_of(self.my_cards_mask())).len(),
    {
        proof {
            lemma_bits_from_len(self.my_cards_mask(), 0);
            lemma_moves_cards_len(*self, *t, f, bits_of(self.my_cards_mask()));
            lemma_masked_confined(self.cards, 0xffffu32);
        }
        let mut card = self.next_my_card();
        let mut n: u32 = 0;
        loop
            invariant
                t.wf(),
                f < 25,
                card.0 & !0xffffu32 == 0,
                n + self.moves_cards(*t, f, card.remaining()).len() == self.moves_cards(
                    *t,
                    f,
                    bits_of(self.my_cards_mask()),
                ).len(),
                self.moves_cards(*t, f, bits_of(self.my_cards_mask())).len() <= 1024,
            decreases card.remaining().len(),
        {
            let ghost pre = card;
            match card.next() {
                None => {
                    return n;
                },
                Some(c) => {
                    proof {
                        lemma_bit_below_16(pre.0, c);
                        lemma_and_keeps_bound(pre.0, !(1u32 << c), 0xffffu32);
                    }
                    let d = !self.my & t.dst_mask(c, f);
                    let p = popcount(d);
                    proof {
                        assert(self.moves_for(*t, f, c).len() == bits_of(d).len());
                    }
                    n = n + p;
                },
            }
        }
    }

    /// Counts the legal moves of the side to move without materializing them.
    /// The count always equals the number of positions the forward enumerator
    /// produces.
    pub fn count_moves(&self, t: &CardTables) -> (n: u64)
        requires
            t.wf(),
        ensures
            n == self.moves(*t).len(),
    {
        proof {
            lemma_bits_from_len(self.my_pieces(), 0);
            lemma_moves_froms_len(*self, *t, bits_of(self.my_pieces()));
            lemma_masked_confined(self.my, PIECE_MASK);
        }
        let mut from = self.next_my();
        let mut n: u64 = 0;
        loop
            invariant
                t.wf(),
                from.0 & !PIECE_MASK == 0,
                n + self.moves_froms(*t, from.remaining()).len() == self.moves(*t).len(),
                self.moves(*t).len() <= 32768,
            decreases from.remaining().len(),
        {
            let ghost pre = from;
            match from.next() {
                None => {
                    return n;
                },
                Some(f) => {
                    proof {
                        lemma_bit_below_25(pre.0, f);
                        lemma_and_keeps_bound(pre.0, !(1u32 << f), PIECE_MASK);
                    }
                    let p = self.count_moves_from(t, f);
                    n = n + p as u64;
                },
            }
        }
    }

    /// One (origin, card) pair wins at once: it reaches the opponent king, or
    /// it is the mover's king reaching the temple arch.
    pub open spec fn winning_move(self, t: CardTables, from: u32, card: u32) -> bool {
        t.dst(card, from) & self.other_king_bit() != 0 || (from == self.my_king() && t.dst(
            card,
            from,
        ) & (1u32 << 22) != 0)
    }

    /// Some held card moves some owned piece onto the opponent king, or moves
    /// the mover's own king through the temple arch.
    pub open spec fn win_spec(self, t: CardTables) -> bool {
        exists|from: u32, card: u32|
            from < 25 && card < 16 && bit(self.my_pieces(), from) && bit(
                self.my_cards_mask(),
                card,
            ) && #[trigger] self.winning_move(t, from, card)
    }

    /// Whether some card of the mover's hand wins at once from origin `f`.
    fn is_win_from(&self, t: &CardTables, f: u32) -> (r: bool)
        requires
            t.wf(),
            f < 25,
            self.other_king() < 32,
        ensures
            r == exists|c: u32|
                c < 16 && bit(self.my_cards_mask(), c) && #[trigger] self.winning_move(*t, f, c),
    {
        proof {
            lemma_masked_confined(self.cards, 0xffffu32);
        }
        let okb = (1u32 << 24) >> (self.other >> 25);
        let my_king = self.my >> 25;
        let mut card = self.next_my_card();
        loop
            invariant
                t.wf(),
                f < 25,
                self.other_king() < 32,
                okb == self.other_king_bit(),
                my_king == self.my_king(),
                card.0 & !0xffffu32 == 0,
                forall|c: u32| c < 32 && #[trigger] bit(card.0, c) ==> bit(
                    self.my_cards_mask(),
                    c,
                ),
                forall|c: u32|
                    c < 16 && #[trigger] bit(self.my_cards_mask(), c) && !bit(card.0, c)
                        ==> !self.winning_move(*t, f, c),
            decreases card.remaining().len(),
        {
            let ghost pre = card;
            match card.next() {
                None => {
                    proof {
                        lemma_bits_from_members(pre.0, 0);
                        assert forall|c: u32|
                            c < 16 && bit(self.my_cards_mask(), c) implies !self.winning_move(
                            *t,
                            f,
                            c,
                        ) by {
                            if bit(pre.0, c) {
                                assert(bits_of(pre.0).contains(c));
                            }
                        }
                    }
                    return false;
                },
                Some(c) => {
                    proof {
                        lemma_bit_below_16(pre.0, c);
                        lemma_bit_ops();
                        lemma_and_keeps_bound(pre.0, !(1u32 << c), 0xffffu32);
                    }
                    let d = t.dst_mask(c, f);
                    if d & okb != 0 {
                        proof {
                            assert(self.winning_move(*t, f, c));
                        }
                        return true;
                    }
                    if f == my_king && d & (1u32 << 22) != 0 {
                        proof {
                            assert(self.winning_move(*t, f, c));
                        }
                        return true;
                    }
                    proof {
                        assert(!self.winning_move(*t, f, c));
                    }
                },
            }
        }
    }

    /// Whether the side to move has an immediate winning move: a reachable
    /// opponent king, or the mover's own king reaching the temple arch.
    pub fn is_win(&self, t: &CardTables) -> (r: bool)
        requires
            t.wf(),
            self.other_king() < 32,
        ensures
            r == self.win_spec(*t),
    {
        proof {
            lemma_masked_confined(self.my, PIECE_MASK);
        }
        let mut from = self.next_my();
        loop
            invariant
                t.wf(),
                self.other_king() < 32,
                from.0 & !PIECE_MASK == 0,
                forall|j: u32| j < 32 && #[trigger] bit(from.0, j) ==> bit(self.my_pieces(), j),
                forall|j: u32, c: u32|
                    j < 25 && c < 16 && bit(self.my_pieces(), j) && bit(self.my_cards_mask(), c)
                        && !bit(from.0, j) ==> !(#[trigger] self.winning_move(*t, j, c)),
            decreases from.remaining().len(),
        {
            let ghost pre = from;
            match from.next() {
                None => {
                    proof {
                        lemma_bits_from_members(pre.0, 0);
                        assert forall|j: u32, c: u32|
                            j < 25 && c < 16 && bit(self.my_pieces(), j) && bit(
                                self.my_cards_mask(),
                                c,
                            ) implies !self.winning_move(*t, j, c) by {
                            if bit(pre.0, j) {
                                assert(bits_of(pre.0).contains(j));
                            }
                        }
                    }
                    return false;
                },
                Some(f) => {
                    proof {
                        lemma_bit_below_25(pre.0, f);
                        lemma_bit_ops();
                        lemma_and_keeps_bound(pre.0, !(1u32 << f), PIECE_MASK);
                    }
                    if self.is_win_from(t, f) {
                        return true;
                    }
                    proof {
                        assert forall|c: u32|
                            c < 16 && bit(self.my_cards_mask(), c) implies !self.winning_move(
                            *t,
                            f,
                            c,
                        ) by {}
                    }
                },
            }
        }
    }
}

/// The lazy forward enumerator: a single-pass cursor over the mover's pieces,
/// cards and destinations that produces every successor position in order.
/// Its reported total length always reflects the original position, never the
/// partially consumed cursor.
pub struct GameIter {
    pub game: Game,
    pub from: BitIter,
    pub from_curr: u32,
    pub card: CardIter,
    pub card_curr: u32,
    pub to: BitIter,
}

impl GameIter {
    /// Cursor sanity: indices on the board, masks confined to their fields.
    pub open spec fn inv(self) -> bool {
        &&& self.from_curr < 25
        &&& self.card_curr < 16
        &&& self.game.table < 16
        &&& self.from.0 & !PIECE_MASK == 0
        &&& self.card.0 & !0xffffu32 == 0
    }

    /// The moves not yet produced, in order: the destinations left for the
    /// current origin and card, then the current origin's remaining cards,
    /// then the remaining origins.
    pub open spec fn remaining(self, t: CardTables) -> Seq<Move> {
        bits_of(self.to.0).map_values(
            |to: u32| Move { from: self.from_curr, card: self.card_curr, to: to },
        ) + self.game.moves_cards(t, self.from_curr, bits_of(self.card.0)) + self.game.moves_froms(
            t,
            bits_of(self.from.0),
        )
    }

    /// Produces the successor for the next move, or nothing once every move
    /// has been produced.
    pub fn next(&mut self, t: &CardTables) -> (r: Option<Game>)
        requires
            t.wf(),
            old(self).inv(),
        ensures
            final(self).inv(),
            final(self).game == old(self).game,
            old(self).remaining(*t).len() == 0 ==> r is None && final(self).remaining(*t) == old(
                self,
            ).remaining(*t),
            old(self).remaining(*t).len() > 0 ==> r == Some(
                old(self).game.step(old(self).remaining(*t)[0]),
            ) && final(self).remaining(*t) == old(self).remaining(*t).drop_first(),
    {
        loop
            invariant
                t.wf(),
                self.inv(),
                self.game == old(self).game,
                self.remaining(*t) == old(self).remaining(*t),
            decreases self.from.0, self.card.0,
        {
            let ghost pre = *self;
            let to_next = self.to.next();
            match to_next {
                Some(to_curr) => {
                    proof {
                        assert(pre.remaining(*t)[0] == (Move {
                            from: pre.from_curr,
                            card: pre.card_curr,
                            to: to_curr,
                        }));
                        assert(self.remaining(*t) =~= pre.remaining(*t).drop_first());
                    }
                    let my_king = self.game.my >> 25;
                    let to_other = (1u32 << 24) >> to_curr;
                    let other = !to_other & self.game.other;
                    let my_cards = self.game.cards ^ (1u32 << self.card_curr) ^ (1u32
                        << self.game.table);
                    let cards = (my_cards << 16) | (my_cards >> 16);
                    let mut my = self.game.my ^ (1u32 << self.from_curr) ^ (1u32 << to_curr);
                    if self.from_curr == my_king {
                        my = (my & PIECE_MASK) | (to_curr << 25);
                    }
                    return Some(Game { my: other, other: my, cards: cards, table: self.card_curr });
                },
                None => {
                    match self.card.next() {
                        Some(c) => {
                            proof {
                                lemma_bit_below_16(pre.card.0, c);
                                lemma_and_keeps_bound(pre.card.0, !(1u32 << c), 0xffffu32);
                            }
                            self.card_curr = c;
                            self.to = self.game.next_to(t, self.from_curr, c);
                            proof {
                                assert(self.game.moves_cards(*t, self.from_curr, bits_of(pre.card.0))
                                    == self.game.moves_for(*t, self.from_curr, c)
                                    + self.game.moves_cards(
                                    *t,
                                    self.from_curr,
                                    bits_of(self.card.0),
                                ));
                                assert(bits_of(self.to.0).map_values(
                                    |to: u32| Move {
                                        from: self.from_curr,
                                        card: self.card_curr,
                                        to: to,
                                    },
                                ) =~= self.game.moves_for(*t, self.from_curr, c));
                                assert(self.remaining(*t) =~= pre.remaining(*t));
                            }
                        },
                        None => {
                            let from_next = self.from.next();
                            match from_next {
                                Some(f) => {
                                    proof {
                                        lemma_bit_below_25(pre.from.0, f);
                                        lemma_and_keeps_bound(pre.from.0, !(1u32 << f), PIECE_MASK);
                                        lemma_masked_confined(self.game.cards, 0xffffu32);
                                    }
                                    self.from_curr = f;
                                    self.card = self.game.next_my_card();
                                    self.to = BitIter(0);
                                    proof {
                                        lemma_bits_of_zero();
                                        assert(self.game.moves_froms(*t, bits_of(pre.from.0))
                                            == self.game.moves_cards(
                                            *t,
                                            f,
                                            bits_of(self.game.my_cards_mask()),
                                        ) + self.game.moves_froms(*t, bits_of(self.from.0)));
                                        assert(self.remaining(*t) =~= pre.remaining(*t));
                                    }
                                },
                                None => {
                                    proof {
                                        assert(pre.remaining(*t).len() == 0);
                                    }
                                    return None;
                                },
                            }
                        },
                    }
                },
            }
        }
    }

    /// The total number of successors the enumeration produces, computed from
    /// the original position: partial consumption does not change it.
    pub fn len(&self, t: &CardTables) -> (n: usize)
        requires
            t.wf(),
        ensures
            n == self.game.moves(*t).len(),
    {
        proof {
            lemma_bits_from_len(self.game.my_pieces(), 0);
            lemma_moves_froms_len(self.game, *t, bits_of(self.game.my_pieces()));
        }
        self.game.count_moves(t) as usize
    }
}

impl Game {
    /// Starts the lazy enumeration of every successor position, in the order
    /// of [`Game::moves`]. The cursor is not restartable: consume it once.
    pub fn forward(&self) -> (it: GameIter)
        requires
            self.table < 16,
        ensures
            it.game == *self,
            it.inv(),
            forall|t: CardTables| #[trigger] it.remaining(t) == self.moves(t),
    {
        proof {
            lemma_masked_confined(self.my, PIECE_MASK);
            lemma_bits_of_zero();
            assert(0u32 & 0xffffu32 == 0u32) by (bit_vector);
            assert((0u32 & 0xffffu32) & !0xffffu32 == 0u32) by (bit_vector);
        }
        let it = GameIter {
            game: *self,
            from: self.next_my(),
            from_curr: 0,
            card: CardIter::new(0),
            card_curr: 0,
            to: BitIter(0),
        };
        proof {
            assert forall|t: CardTables| #[trigger] it.remaining(t) == self.moves(t) by {
                assert(it.remaining(t) =~= self.moves(t));
            }
        }
        it
    }
}

/// The lazy retrograde enumerator: a single-pass cursor over the other side's
/// pieces, its cards and the candidate origins, producing every predecessor
/// position together with the one-bit mask of the square the reconstructed
/// move vacated (where a captured piece may have stood).
pub struct GameBackIter {
    pub game: Game,
    pub to: BitIter,
    pub to_curr: u32,
    pub card: CardIter,
    pub card_curr: u32,
    pub from: BitIter,
}

impl GameBackIter {
    /// Cursor sanity: indices on the board, masks confined to their fields.
    pub open spec fn inv(self) -> bool {
        &&& self.to_curr < 25
        &&& self.card_curr < 16
        &&& self.game.table < 16
        &&& self.to.0 & !PIECE_MASK == 0
        &&& self.card.0 & !0xffffu32 == 0
    }

    /// The retrograde steps not yet produced, in order.
    pub open spec fn remaining(self, t: CardTables) -> Seq<Move> {
        bits_of(self.from.0).map_values(
            |from: u32| Move { from: from, card: self.card_curr, to: self.to_curr },
        ) + self.game.back_moves_cards(t, self.to_curr, bits_of(self.card.0))
            + self.game.back_moves_tos(t, bits_of(self.to.0))
    }

    /// Produces the next predecessor position and its vacated-square mask, or
    /// nothing once every retrograde step has been produced.
    pub fn next(&mut self, t: &CardTables) -> (r: Option<(Game, u32)>)
        requires
            t.wf(),
            old(self).inv(),
        ensures
            final(self).inv(),
            final(self).game == old(self).game,
            old(self).remaining(*t).len() == 0 ==> r is None && final(self).remaining(*t) == old(
                self,
            ).remaining(*t),
            old(self).remaining(*t).len() > 0 ==> {
                let m = old(self).remaining(*t)[0];
                r == Some((old(self).game.back_step(m), old(self).game.back_mask(m))) && final(
                    self).remaining(*t) == old(self).remaining(*t).drop_first()
            },
    {
        loop
            invariant
                t.wf(),
                self.inv(),
                self.game == old(self).game,
                self.remaining(*t) == old(self).remaining(*t),
            decreases self.to.0, self.card.0,
        {
            let ghost pre = *self;
            let from_next = self.from.next();
            match from_next {
                Some(from_curr) => {
                    proof {
                        assert(pre.remaining(*t)[0] == (Move {
                            from: from_curr,
                            card: pre.card_curr,
                            to: pre.to_curr,
                        }));
                        assert(self.remaining(*t) =~= pre.remaining(*t).drop_first());
                    }
                    let other_king = self.game.other >> 25;
                    let cards_sw = (self.game.cards << 16) | (self.game.cards >> 16);
                    let cards = cards_sw ^ (1u32 << self.card_curr) ^ (1u32 << self.game.table);
                    let mut other = self.game.other ^ (1u32 << self.to_curr) ^ (1u32 << from_curr);
                    if self.to_curr == other_king {
                        other = (other & PIECE_MASK) | (from_curr << 25);
                    }
                    let prev = Game {
                        my: other,
                        other: self.game.my,
                        cards: cards,
                        table: self.card_curr,
                    };
                    return Some((prev, (1u32 << 24) >> self.to_curr));
                },
                None => {
                    match self.card.next() {
                        Some(c) => {
                            proof {
                                lemma_bit_below_16(pre.card.0, c);
                                lemma_and_keeps_bound(pre.card.0, !(1u32 << c), 0xffffu32);
                            }
                            self.card_curr = c;
                            self.from = self.game.next_from(t, self.to_curr, self.game.table);
                            proof {
                                assert(self.game.back_moves_cards(
                                    *t,
                                    self.to_curr,
                                    bits_of(pre.card.0),
                                ) == self.game.back_moves_for(*t, self.to_curr, c)
                                    + self.game.back_moves_cards(
                                    *t,
                                    self.to_curr,
                                    bits_of(self.card.0),
                                ));
                                assert(bits_of(self.from.0).map_values(
                                    |from: u32| Move {
                                        from: from,
                                        card: self.card_curr,
                                        to: self.to_curr,
                                    },
                                ) =~= self.game.back_moves_for(*t, self.to_curr, c));
                                assert(self.remaining(*t) =~= pre.remaining(*t));
                            }
                        },
                        None => {
                            let to_next = self.to.next();
                            match to_next {
                                Some(s) => {
                                    proof {
                                        lemma_bit_below_25(pre.to.0, s);
                                        lemma_and_keeps_bound(pre.to.0, !(1u32 << s), PIECE_MASK);
                                        let cd = self.game.cards;
                                        assert((cd >> 16) & 0xffffu32 == cd >> 16) by (bit_vector);
                                        assert(((cd >> 16) & 0xffffu32) & !0xffffu32 == 0u32)
                                            by (bit_vector);
                                    }
                                    self.to_curr = s;
                                    self.card = self.game.next_other_card();
                                    self.from = BitIter(0);
                                    proof {
                                        lemma_bits_of_zero();
                                        assert(self.game.back_moves_tos(*t, bits_of(pre.to.0))
                                            == self.game.back_moves_cards(
                                            *t,
                                            s,
                                            bits_of(self.game.other_cards_mask()),
                                        ) + self.game.back_moves_tos(*t, bits_of(self.to.0)));
                                        assert(self.remaining(*t) =~= pre.remaining(*t));
                                    }
                                },
                                None => {
                                    proof {
                                        assert(pre.remaining(*t).len() == 0);
                                    }
                                    return None;
                                },
                            }
                        },
                    }
                },
            }
        }
    }
}

impl Game {
    /// Starts the lazy enumeration of every predecessor position, in the
    /// order of [`Game::back_moves`], each with the one-bit mask of the square
    /// its move vacated. The cursor is not restartable: consume it once.
    pub fn backward(&self) -> (it: GameBackIter)
        requires
            self.table < 16,
        ensures
            it.game == *self,
            it.inv(),
            forall|t: CardTables| #[trigger] it.remaining(t) == self.back_moves(t),
    {
        proof {
            lemma_masked_confined(self.other, PIECE_MASK);
            lemma_bits_of_zero();
            assert(0u32 & 0xffffu32 == 0u32) by (bit_vector);
            assert((0u32 & 0xffffu32) & !0xffffu32 == 0u32) by (bit_vector);
        }
        let it = GameBackIter {
            game: *self,
            to: self.next_other(),
            to_curr: 0,
            card: CardIter::new(0),
            card_curr: 0,
            from: BitIter(0),
        };
        proof {
            assert forall|t: CardTables| #[trigger] it.remaining(t) == self.back_moves(t) by {
                assert(it.remaining(t) =~= self.back_moves(t));
            }
        }
        it
    }
}

/// Decides [`two_cards`] for a 16-bit hand mask: scans the bits and accepts
/// exactly two.
fn has_two_cards(m: u32) -> (r: bool)
    requires
        m & !0xffffu32 == 0,
    ensures
        r == two_cards(m),
{
    proof {
        lemma_bit_ops();
        lemma_bits_from_members(m, 0);
    }
    let mut it = BitIter(m);
    let b0 = match it.next() {
        None => {
            proof {
                if two_cards(m) {
                    let (a, b): (u32, u32) = choose|a: u32, b: u32|
                        a < b < 16 && m == #[trigger] pair_mask(a, b);
                    assert(bit(m, a));
                    assert(bits_of(m).contains(a));
                }
            }
            return false;
        },
        Some(b) => b,
    };
    let ghost m1 = it.0;
    let b1 = match it.next() {
        None => {
            proof {
                if two_cards(m) {
                    let (a, b): (u32, u32) = choose|a: u32, b: u32|
                        a < b < 16 && m == #[trigger] pair_mask(a, b);
                    assert(bit(m, a) && bit(m, b));
                    assert(bit(m1, a) || bit(m1, b));
                    assert(bits_of(m1).contains(a) || bits_of(m1).contains(b)) by {
                        lemma_bits_from_members(m1, 0);
                    }
                }
            }
            return false;
        },
        Some(b) => b,
    };
    let ghost m2 = it.0;
    match it.next() {
        None => {
            proof {
                lemma_bit_below_16(m, b0);
                assert(bit(m, b1) && b0 < b1);
                lemma_bit_below_16(m, b1);
                assert(m == (1u32 << b0) | (1u32 << b1)) by (bit_vector)
                    requires
                        b0 < 32,
                        b1 < 32,
                        (m >> b0) & 1u32 == 1u32,
                        m1 == m & !(1u32 << b0),
                        (m1 >> b1) & 1u32 == 1u32,
                        m2 == m1 & !(1u32 << b1),
                        m2 == 0,
                ;
                assert(m == pair_mask(b0, b1));
            }
            true
        },
        Some(b2) => {
            proof {
                assert(bit(m, b1) && bit(m, b2) && b0 < b1 < b2);
                if two_cards(m) {
                    let (a, b): (u32, u32) = choose|a: u32, b: u32|
                        a < b < 16 && m == #[trigger] pair_mask(a, b);
                    assert((b0 == a || b0 == b) && (b1 == a || b1 == b) && (b2 == a || b2 == b));
                }
            }
            false
        },
    }
}

impl Game {
    /// Validates a position at the construction boundary: structurally well
    /// formed, five pairwise-distinct card identities, and no square occupied
    /// by both sides. Positions built outside the enumerators should pass
    /// through this check before they enter the core.
    pub fn is_valid(&self) -> (r: bool)
        ensures
            r == (self.wf() && self.cards_distinct() && self.boards_disjoint()),
    {
        proof {
            lemma_bit_ops();
            lemma_masked_confined(self.cards, 0xffffu32);
            let cd = self.cards;
            assert((cd >> 16) & !0xffffu32 == 0) by (bit_vector);
        }
        if self.my >> 25 >= 25 || self.other >> 25 >= 25 || self.table >= 16 {
            return false;
        }
        if !has_two_cards(self.cards & 0xffff) || !has_two_cards(self.cards >> 16) {
            return false;
        }
        if (self.cards & 0xffff) & (self.cards >> 16) != 0 {
            return false;
        }
        if ((self.cards & 0xffff) | (self.cards >> 16)) & (1u32 << self.table) != 0 {
            return false;
        }
        let mut s: u32 = 0;
        while s < 25
            invariant
                s <= 25,
                forall|j: u32| j < s ==> !(#[trigger] bit(self.my, j) && bit(
                    self.other,
                    (24 - j) as u32,
                )),
            decreases 25 - s,
        {
            proof {
                lemma_bit_ops();
            }
            if self.my & (1u32 << s) != 0 && self.other & (1u32 << (24 - s)) != 0 {
                proof {
                    assert(bit(self.my, s) && bit(self.other, (24 - s) as u32));
                }
                return false;
            }
            s = s + 1;
        }
        true
    }
}

/// At most 32 destinations stand behind each card of `cs`.
proof fn lemma_moves_cards_len(g: Game, t: CardTables, from: u32, cs: Seq<u32>)
    ensures
        g.moves_cards(t, from, cs).len() <= 32 * cs.len(),
    decreases cs.len(),
{
    if cs.len() > 0 {
        lemma_bits_from_len(g.dests(t, from, cs[0]), 0);
        lemma_moves_cards_len(g, t, from, cs.drop_first());
    }
}

/// At most 1024 moves stand behind each origin of `fs`.
proof fn lemma_moves_froms_len(g: Game, t: CardTables, fs: Seq<u32>)
    ensures
        g.moves_froms(t, fs).len() <= 1024 * fs.len(),
    decreases fs.len(),
{
    if fs.len() > 0 {
        lemma_bits_from_len(g.my_cards_mask(), 0);
        lemma_moves_cards_len(g, t, fs[0], bits_of(g.my_cards_mask()));
        lemma_moves_froms_len(g, t, fs.drop_first());
    }
}

} // verus!
