//! The general laws of the move generator, proved once and for all inputs.
//!
//! Move-count consistency needs no lemma of its own: `Game::count_moves` and
//! `GameIter::len` promise `moves(t).len()` in their contracts, and
//! `GameIter::next` produces exactly one successor per element of `moves(t)`.
//! The laws here relate the enumerations across a transition: which moves are
//! legal, that a forward step swaps the perspective, that it conserves the
//! five card identities, that a winning position has a successor in which the
//! opponent has lost, and that the retrograde enumeration of a successor
//! recovers the position it came from.

use vstd::prelude::*;
use crate::bits::{
    bit, bits_of, lemma_bit_below_16, lemma_bit_below_25, lemma_bit_ops, lemma_bits_from_members,
    lemma_masked_confined, lemma_rev25, rev25,
};
use crate::game::{pair_mask, two_cards, Game, Move};
use crate::tables::{CardTables, PIECE_MASK};

verus! {

proof fn lemma_moves_cards_index(g: Game, t: CardTables, from: u32, cs: Seq<u32>, i: int)
    requires
        0 <= i < g.moves_cards(t, from, cs).len(),
    ensures
        ({
            let m = g.moves_cards(t, from, cs)[i];
            m.from == from && cs.contains(m.card) && m.to < 32 && bit(
                g.dests(t, from, m.card),
                m.to,
            )
        }),
    decreases cs.len(),
{
    let a = g.moves_for(t, from, cs[0]);
    let m = g.moves_cards(t, from, cs)[i];
    if i < a.len() {
        lemma_bits_from_members(g.dests(t, from, cs[0]), 0);
        assert(m == a[i]);
        assert(cs.contains(cs[0]));
    } else {
        lemma_moves_cards_index(g, t, from, cs.drop_first(), i - a.len());
        assert(m == g.moves_cards(t, from, cs.drop_first())[i - a.len()]);
        let k = choose|k: int|
            0 <= k < cs.drop_first().len() && #[trigger] cs.drop_first()[k] == m.card;
        assert(cs[k + 1] == m.card);
    }
}

proof fn lemma_moves_froms_index(g: Game, t: CardTables, fs: Seq<u32>, i: int)
    requires
        0 <= i < g.moves_froms(t, fs).len(),
    ensures
        ({
            let m = g.moves_froms(t, fs)[i];
            fs.contains(m.from) && bits_of(g.my_cards_mask()).contains(m.card) && m.to < 32 && bit(
                g.dests(t, m.from, m.card),
                m.to,
            )
        }),
    decreases fs.len(),
{
    let a = g.moves_cards(t, fs[0], bits_of(g.my_cards_mask()));
    let m = g.moves_froms(t, fs)[i];
    if i < a.len() {
        lemma_moves_cards_index(g, t, fs[0], bits_of(g.my_cards_mask()), i);
        assert(m == a[i]);
        assert(fs.contains(fs[0]));
    } else {
        lemma_moves_froms_index(g, t, fs.drop_first(), i - a.len());
        assert(m == g.moves_froms(t, fs.drop_first())[i - a.len()]);
        let k = choose|k: int|
            0 <= k < fs.drop_first().len() && #[trigger] fs.drop_first()[k] == m.from;
        assert(fs[k + 1] == m.from);
    }
}

/// Every enumerated move is legal: its origin carries one of the mover's
/// pieces, its card is held by the mover, and its destination is a square the
/// card reaches that the mover does not occupy.
pub proof fn lemma_moves_index(g: Game, t: CardTables, i: int)
    requires
        t.wf(),
        0 <= i < g.moves(t).len(),
    ensures
        ({
            let m = g.moves(t)[i];
            &&& bit(g.my_pieces(), m.from) && m.from < 25
            &&& bit(g.my_cards_mask(), m.card) && m.card < 16
            &&& bit(g.dests(t, m.from, m.card), m.to) && m.to < 25
            &&& bit(t.dst(m.card, m.from), m.to)
            &&& !bit(g.my, m.to)
        }),
{
    lemma_moves_froms_index(g, t, bits_of(g.my_pieces()), i);
    let m = g.moves(t)[i];
    lemma_bits_from_members(g.my_pieces(), 0);
    lemma_bits_from_members(g.my_cards_mask(), 0);
    lemma_masked_confined(g.my, PIECE_MASK);
    lemma_masked_confined(g.cards, 0xffffu32);
    lemma_bit_below_25(g.my_pieces(), m.from);
    lemma_bit_below_16(g.my_cards_mask(), m.card);
    lemma_bit_ops();
    assert(bit(t.dst(m.card, m.from), m.to) && !bit(g.my, m.to));
    lemma_bit_below_25(t.dst(m.card, m.from), m.to);
}

proof fn lemma_moves_cards_contains(g: Game, t: CardTables, from: u32, cs: Seq<u32>, m: Move)
    requires
        cs.contains(m.card),
        m.from == from,
        m.to < 32,
        bit(g.dests(t, from, m.card), m.to),
    ensures
        g.moves_cards(t, from, cs).contains(m),
    decreases cs.len(),
{
    let a = g.moves_for(t, from, cs[0]);
    if cs[0] == m.card {
        lemma_bits_from_members(g.dests(t, from, m.card), 0);
        let d = bits_of(g.dests(t, from, m.card));
        assert(d.contains(m.to));
        let k = choose|k: int| 0 <= k < d.len() && #[trigger] d[k] == m.to;
        assert(a[k] == m);
        assert(g.moves_cards(t, from, cs)[k] == m);
    } else {
        let k = choose|k: int| 0 <= k < cs.len() && #[trigger] cs[k] == m.card;
        assert(cs.drop_first()[k - 1] == m.card);
        lemma_moves_cards_contains(g, t, from, cs.drop_first(), m);
        let r = g.moves_cards(t, from, cs.drop_first());
        let j = choose|j: int| 0 <= j < r.len() && #[trigger] r[j] == m;
        assert(g.moves_cards(t, from, cs)[a.len() + j] == m);
    }
}

proof fn lemma_moves_froms_contains(g: Game, t: CardTables, fs: Seq<u32>, m: Move)
    requires
        fs.contains(m.from),
        bits_of(g.my_cards_mask()).contains(m.card),
        m.to < 32,
        bit(g.dests(t, m.from, m.card), m.to),
    ensures
        g.moves_froms(t, fs).contains(m),
    decreases fs.len(),
{
    let a = g.moves_cards(t, fs[0], bits_of(g.my_cards_mask()));
    if fs[0] == m.from {
        lemma_moves_cards_contains(g, t, m.from, bits_of(g.my_cards_mask()), m);
        let j = choose|j: int| 0 <= j < a.len() && #[trigger] a[j] == m;
        assert(g.moves_froms(t, fs)[j] == m);
    } else {
        let k = choose|k: int| 0 <= k < fs.len() && #[trigger] fs[k] == m.from;
        assert(fs.drop_first()[k - 1] == m.from);
        lemma_moves_froms_contains(g, t, fs.drop_first(), m);
        let r = g.moves_froms(t, fs.drop_first());
        let j = choose|j: int| 0 <= j < r.len() && #[trigger] r[j] == m;
        assert(g.moves_froms(t, fs)[a.len() + j] == m);
    }
}

/// Every legal move is enumerated: a held card moving an owned piece to a
/// square it reaches and the mover does not occupy appears in `moves(t)`.
pub proof fn lemma_moves_contains(g: Game, t: CardTables, m: Move)
    requires
        m.from < 32,
        m.card < 32,
        m.to < 32,
        bit(g.my_pieces(), m.from),
        bit(g.my_cards_mask(), m.card),
        bit(g.dests(t, m.from, m.card), m.to),
    ensures
        g.moves(t).contains(m),
{
    lemma_bits_from_members(g.my_pieces(), 0);
    lemma_bits_from_members(g.my_cards_mask(), 0);
    lemma_moves_froms_contains(g, t, bits_of(g.my_pieces()), m);
}

proof fn lemma_back_moves_cards_index(g: Game, t: CardTables, to: u32, cs: Seq<u32>, i: int)
    requires
        0 <= i < g.back_moves_cards(t, to, cs).len(),
    ensures
        ({
            let m = g.back_moves_cards(t, to, cs)[i];
            m.to == to && cs.contains(m.card) && m.from < 32 && bit(g.back_froms(t, to), m.from)
        }),
    decreases cs.len(),
{
    let a = g.back_moves_for(t, to, cs[0]);
    let m = g.back_moves_cards(t, to, cs)[i];
    if i < a.len() {
        lemma_bits_from_members(g.back_froms(t, to), 0);
        assert(m == a[i]);
        assert(cs.contains(cs[0]));
    } else {
        lemma_back_moves_cards_index(g, t, to, cs.drop_first(), i - a.len());
        assert(m == g.back_moves_cards(t, to, cs.drop_first())[i - a.len()]);
        let k = choose|k: int|
            0 <= k < cs.drop_first().len() && #[trigger] cs.drop_first()[k] == m.card;
        assert(cs[k + 1] == m.card);
    }
}

proof fn lemma_back_moves_tos_index(g: Game, t: CardTables, ts: Seq<u32>, i: int)
    requires
        0 <= i < g.back_moves_tos(t, ts).len(),
    ensures
        ({
            let m = g.back_moves_tos(t, ts)[i];
            ts.contains(m.to) && bits_of(g.other_cards_mask()).contains(m.card) && m.from < 32
                && bit(g.back_froms(t, m.to), m.from)
        }),
    decreases ts.len(),
{
    let a = g.back_moves_cards(t, ts[0], bits_of(g.other_cards_mask()));
    let m = g.back_moves_tos(t, ts)[i];
    if i < a.len() {
        lemma_back_moves_cards_index(g, t, ts[0], bits_of(g.other_cards_mask()), i);
        assert(m == a[i]);
        assert(ts.contains(ts[0]));
    } else {
        lemma_back_moves_tos_index(g, t, ts.drop_first(), i - a.len());
        assert(m == g.back_moves_tos(t, ts.drop_first())[i - a.len()]);
        let k = choose|k: int|
            0 <= k < ts.drop_first().len() && #[trigger] ts.drop_first()[k] == m.to;
        assert(ts[k + 1] == m.to);
    }
}

/// Every enumerated retrograde step is plausible: the moved piece stands on
/// an occupied square of the side that moved, the card crediting the prior
/// table comes from that side's hand, and the origin is an unblocked square
/// the table card reaches the destination from.
pub proof fn lemma_back_moves_index(g: Game, t: CardTables, i: int)
    requires
        0 <= i < g.back_moves(t).len(),
    ensures
        ({
            let m = g.back_moves(t)[i];
            &&& bit(g.other_pieces(), m.to) && m.to < 25
            &&& bit(g.other_cards_mask(), m.card) && m.card < 16
            &&& bit(g.back_froms(t, m.to), m.from) && m.from < 32
        }),
{
    lemma_back_moves_tos_index(g, t, bits_of(g.other_pieces()), i);
    let m = g.back_moves(t)[i];
    lemma_bits_from_members(g.other_pieces(), 0);
    lemma_bits_from_members(g.other_cards_mask(), 0);
    lemma_masked_confined(g.other, PIECE_MASK);
    lemma_bit_below_25(g.other_pieces(), m.to);
    let cd = g.cards;
    assert((cd >> 16) & !0xffffu32 == 0) by (bit_vector);
    lemma_bit_below_16(g.other_cards_mask(), m.card);
}

proof fn lemma_back_moves_cards_contains(g: Game, t: CardTables, to: u32, cs: Seq<u32>, m: Move)
    requires
        cs.contains(m.card),
        m.to == to,
        m.from < 32,
        bit(g.back_froms(t, to), m.from),
    ensures
        g.back_moves_cards(t, to, cs).contains(m),
    decreases cs.len(),
{
    let a = g.back_moves_for(t, to, cs[0]);
    if cs[0] == m.card {
        lemma_bits_from_members(g.back_froms(t, to), 0);
        let d = bits_of(g.back_froms(t, to));
        assert(d.contains(m.from));
        let k = choose|k: int| 0 <= k < d.len() && #[trigger] d[k] == m.from;
        assert(a[k] == m);
        assert(g.back_moves_cards(t, to, cs)[k] == m);
    } else {
        let k = choose|k: int| 0 <= k < cs.len() && #[trigger] cs[k] == m.card;
        assert(cs.drop_first()[k - 1] == m.card);
        lemma_back_moves_cards_contains(g, t, to, cs.drop_first(), m);
        let r = g.back_moves_cards(t, to, cs.drop_first());
        let j = choose|j: int| 0 <= j < r.len() && #[trigger] r[j] == m;
        assert(g.back_moves_cards(t, to, cs)[a.len() + j] == m);
    }
}

proof fn lemma_back_moves_tos_contains(g: Game, t: CardTables, ts: Seq<u32>, m: Move)
    requires
        ts.contains(m.to),
        bits_of(g.other_cards_mask()).contains(m.card),
        m.from < 32,
        bit(g.back_froms(t, m.to), m.from),
    ensures
        g.back_moves_tos(t, ts).contains(m),
    decreases ts.len(),
{
    let a = g.back_moves_cards(t, ts[0], bits_of(g.other_cards_mask()));
    if ts[0] == m.to {
        lemma_back_moves_cards_contains(g, t, m.to, bits_of(g.other_cards_mask()), m);
        let j = choose|j: int| 0 <= j < a.len() && #[trigger] a[j] == m;
        assert(g.back_moves_tos(t, ts)[j] == m);
    } else {
        let k = choose|k: int| 0 <= k < ts.len() && #[trigger] ts[k] == m.to;
        assert(ts.drop_first()[k - 1] == m.to);
        lemma_back_moves_tos_contains(g, t, ts.drop_first(), m);
        let r = g.back_moves_tos(t, ts.drop_first());
        let j = choose|j: int| 0 <= j < r.len() && #[trigger] r[j] == m;
        assert(g.back_moves_tos(t, ts)[a.len() + j] == m);
    }
}

/// Every legal retrograde step is enumerated: a piece of the side that moved,
/// a card of its hand, and an unblocked origin the table card reaches it from
/// appear in `back_moves(t)`.
pub proof fn lemma_back_moves_contains(g: Game, t: CardTables, m: Move)
    requires
        m.from < 32,
        m.card < 32,
        m.to < 32,
        bit(g.other_pieces(), m.to),
        bit(g.other_cards_mask(), m.card),
        bit(g.back_froms(t, m.to), m.from),
    ensures
        g.back_moves(t).contains(m),
{
    lemma_bits_from_members(g.other_pieces(), 0);
    lemma_bits_from_members(g.other_cards_mask(), 0);
    lemma_back_moves_tos_contains(g, t, bits_of(g.other_pieces()), m);
}

/// Perspective invariant: a forward step swaps the sides. The new mover is
/// the old opponent, with its hand carried over unchanged and its board less
/// any captured piece; the old mover's hand trades the played card for the
/// table card and becomes the new opponent's hand, and the played card rests
/// on the table.
pub proof fn lemma_step_perspective(g: Game, t: CardTables, i: int)
    requires
        t.wf(),
        g.table < 16,
        0 <= i < g.moves(t).len(),
    ensures
        ({
            let m = g.moves(t)[i];
            let s = g.step(m);
            &&& s.my_cards_mask() == g.other_cards_mask()
            &&& s.other_cards_mask() == g.my_cards_mask() ^ (1u32 << m.card) ^ (1u32 << g.table)
            &&& s.my == !((1u32 << 24) >> m.to) & g.other
            &&& s.table == m.card
        }),
{
    lemma_moves_index(g, t, i);
    let m = g.moves(t)[i];
    let cd = g.cards;
    let c = m.card;
    let tb = g.table;
    let mc = cd ^ (1u32 << c) ^ (1u32 << tb);
    assert(((mc << 16) | (mc >> 16)) & 0xffffu32 == cd >> 16) by (bit_vector)
        requires
            c < 16,
            tb < 16,
            mc == cd ^ (1u32 << c) ^ (1u32 << tb),
    ;
    assert(((mc << 16) | (mc >> 16)) >> 16 == (cd & 0xffffu32) ^ (1u32 << c) ^ (1u32 << tb))
        by (bit_vector)
        requires
            c < 16,
            tb < 16,
            mc == cd ^ (1u32 << c) ^ (1u32 << tb),
    ;
}

/// Card conservation and preservation of well-formedness along a forward
/// step: the successor again holds two cards in each hand with the five card
/// identities pairwise distinct, its kings are on the board, the two sides
/// still share no square, and the side that just moved still has its king.
pub proof fn lemma_step_preserves(g: Game, t: CardTables, i: int)
    requires
        t.wf(),
        g.wf(),
        g.cards_distinct(),
        g.boards_disjoint(),
        bit(g.my, g.my_king()),
        0 <= i < g.moves(t).len(),
    ensures
        ({
            let s = g.step(g.moves(t)[i]);
            &&& s.wf()
            &&& s.cards_distinct()
            &&& s.boards_disjoint()
            &&& bit(s.other, s.other_king())
        }),
{
    lemma_moves_index(g, t, i);
    lemma_bit_ops();
    let m = g.moves(t)[i];
    let s = g.step(m);
    let my = g.my;
    let other = g.other;
    let cd = g.cards;
    let c = m.card;
    let tb = g.table;
    let f = m.from;
    let to = m.to;
    let kk = g.my_king();
    let mc = cd ^ (1u32 << c) ^ (1u32 << tb);
    let moved0 = my ^ (1u32 << f) ^ (1u32 << to);
    let cap = (24 - to) as u32;

    // The new mover is the old opponent: king index and hand unchanged.
    assert((!((1u32 << 24) >> to) & other) >> 25 == other >> 25) by (bit_vector)
        requires
            to < 25,
    ;
    assert((1u32 << 24) >> to == 1u32 << cap) by (bit_vector)
        requires
            to < 25,
            cap == 24 - to,
    ;
    assert(((mc << 16) | (mc >> 16)) & 0xffffu32 == cd >> 16) by (bit_vector)
        requires
            c < 16,
            tb < 16,
            mc == cd ^ (1u32 << c) ^ (1u32 << tb),
    ;
    assert(((mc << 16) | (mc >> 16)) >> 16 == (cd & 0xffffu32) ^ (1u32 << c) ^ (1u32 << tb))
        by (bit_vector)
        requires
            c < 16,
            tb < 16,
            mc == cd ^ (1u32 << c) ^ (1u32 << tb),
    ;

    // The old mover's king index after the move.
    if f == kk {
        assert(((moved0 & 0x1ffffffu32) | (to << 25)) >> 25 == to) by (bit_vector)
            requires
                to < 25,
        ;
    } else {
        assert(moved0 >> 25 == my >> 25) by (bit_vector)
            requires
                f < 25,
                to < 25,
                moved0 == my ^ (1u32 << f) ^ (1u32 << to),
        ;
    }

    // Two distinct cards in the updated hand.
    let a = choose|a: u32, b: u32| a < b < 16 && g.my_cards_mask() == #[trigger] pair_mask(a, b);
    let (ca, cb): (u32, u32) = a;
    let h = cd & 0xffffu32;
    assert(c == ca || c == cb) by (bit_vector)
        requires
            h == (1u32 << ca) | (1u32 << cb),
            ca < 16,
            cb < 16,
            c < 16,
            (h >> c) & 1u32 == 1u32,
            h == cd & 0xffffu32,
    ;
    assert(tb != ca && tb != cb) by (bit_vector)
        requires
            h == (1u32 << ca) | (1u32 << cb),
            ca < 16,
            cb < 16,
            tb < 16,
            ((cd & 0xffffu32) | (cd >> 16)) & (1u32 << tb) == 0,
            h == cd & 0xffffu32,
    ;
    let keep = if c == ca {
        cb
    } else {
        ca
    };
    assert(h ^ (1u32 << c) ^ (1u32 << tb) == (1u32 << keep) | (1u32 << tb)) by (bit_vector)
        requires
            h == (1u32 << ca) | (1u32 << cb),
            ca < cb < 16,
            tb < 16,
            c < 16,
            tb != ca && tb != cb,
            (c == ca && keep == cb) || (c == cb && keep == ca),
    ;
    if keep < tb {
        assert(s.other_cards_mask() == pair_mask(keep, tb));
    } else {
        assert(keep != tb);
        assert((1u32 << keep) | (1u32 << tb) == (1u32 << tb) | (1u32 << keep)) by (bit_vector);
        assert(s.other_cards_mask() == pair_mask(tb, keep));
    }
    assert(two_cards(s.other_cards_mask()));

    // The five card identities stay pairwise distinct.
    assert((cd >> 16) & ((cd & 0xffffu32) ^ (1u32 << c) ^ (1u32 << tb)) == 0 && (((cd >> 16) | ((cd
        & 0xffffu32) ^ (1u32 << c) ^ (1u32 << tb))) & (1u32 << c)) == 0) by (bit_vector)
        requires
            c < 16,
            tb < 16,
            (cd & 0xffffu32) & (cd >> 16) == 0,
            ((cd & 0xffffu32) | (cd >> 16)) & (1u32 << tb) == 0,
            ((cd & 0xffffu32) >> c) & 1u32 == 1u32,
    ;

    // No square is occupied by both sides of the successor.
    assert forall|sq: u32| sq < 25 implies !(bit(s.my, sq) && bit(
        s.other,
        (24 - sq) as u32,
    )) by {
        let j = (24 - sq) as u32;
        assert(bit(s.my, sq) == (bit(other, sq) && sq != cap));
        if sq != cap && j != to {
            assert(bit(s.other, j) == bit(moved0, j));
            if j == f {
                assert(!bit(s.other, j));
            } else {
                assert(bit(moved0, j) == bit(my, j));
                assert(!(bit(my, j) && bit(other, (24 - j) as u32)));
            }
        }
    }

    // The side that just moved still has its king on the board.
    if f == kk {
        assert(bit(moved0, to) == (bit(my, to) != (to == f) != (to == to)));
        assert(bit(s.other, to));
    } else {
        assert(bit(moved0, kk) == bit(my, kk));
        assert(bit(s.other, kk));
    }
}

/// Card conservation along a retrograde step: the reconstructed predecessor
/// again holds two cards in each hand, the five card identities pairwise
/// distinct, with the card that returns to the table below 16.
pub proof fn lemma_back_step_preserves_cards(g: Game, t: CardTables, i: int)
    requires
        t.wf(),
        g.wf(),
        g.cards_distinct(),
        0 <= i < g.back_moves(t).len(),
    ensures
        ({
            let p = g.back_step(g.back_moves(t)[i]);
            &&& two_cards(p.my_cards_mask())
            &&& two_cards(p.other_cards_mask())
            &&& p.cards_distinct()
            &&& p.table < 16
        }),
{
    lemma_back_moves_index(g, t, i);
    lemma_bit_ops();
    let m = g.back_moves(t)[i];
    let p = g.back_step(m);
    let cd = g.cards;
    let c = m.card;
    let tb = g.table;

    // The undone swap: the prior mover's hand is the current mover's hand
    // unchanged; the prior opponent's hand trades the returning card for the
    // table card.
    assert((((cd << 16) | (cd >> 16)) ^ (1u32 << c) ^ (1u32 << tb)) >> 16 == cd & 0xffffu32)
        by (bit_vector)
        requires
            c < 16,
            tb < 16,
    ;
    assert((((cd << 16) | (cd >> 16)) ^ (1u32 << c) ^ (1u32 << tb)) & 0xffffu32 == (cd >> 16) ^ (
    1u32 << c) ^ (1u32 << tb)) by (bit_vector)
        requires
            c < 16,
            tb < 16,
    ;
    assert(p.other_cards_mask() == g.my_cards_mask());

    // Two distinct cards in the reworked hand.
    let pair = choose|a: u32, b: u32|
        a < b < 16 && g.other_cards_mask() == #[trigger] pair_mask(a, b);
    let (ca, cb): (u32, u32) = pair;
    let oh = cd >> 16;
    assert(c == ca || c == cb) by (bit_vector)
        requires
            oh == (1u32 << ca) | (1u32 << cb),
            ca < 16,
            cb < 16,
            c < 16,
            (oh >> c) & 1u32 == 1u32,
            oh == cd >> 16,
    ;
    assert(!bit(g.my_cards_mask() | g.other_cards_mask(), tb));
    assert(tb != ca && tb != cb) by (bit_vector)
        requires
            oh == (1u32 << ca) | (1u32 << cb),
            ca < 16,
            cb < 16,
            tb < 16,
            (cd >> 16) & (1u32 << tb) == 0,
            oh == cd >> 16,
    ;
    let keep = if c == ca {
        cb
    } else {
        ca
    };
    assert(oh ^ (1u32 << c) ^ (1u32 << tb) == (1u32 << keep) | (1u32 << tb)) by (bit_vector)
        requires
            oh == (1u32 << ca) | (1u32 << cb),
            ca < cb < 16,
            tb < 16,
            c < 16,
            tb != ca && tb != cb,
            (c == ca && keep == cb) || (c == cb && keep == ca),
    ;
    if keep < tb {
        assert(p.my_cards_mask() == pair_mask(keep, tb));
    } else {
        assert(keep != tb);
        assert((1u32 << keep) | (1u32 << tb) == (1u32 << tb) | (1u32 << keep)) by (bit_vector);
        assert(p.my_cards_mask() == pair_mask(tb, keep));
    }
    assert(two_cards(p.my_cards_mask()));

    // The five identities stay pairwise distinct.
    assert(((cd >> 16) ^ (1u32 << c) ^ (1u32 << tb)) & (cd & 0xffffu32) == 0 && ((((cd >> 16) ^ (
    1u32 << c) ^ (1u32 << tb)) | (cd & 0xffffu32)) & (1u32 << c)) == 0) by (bit_vector)
        requires
            c < 16,
            tb < 16,
            (cd & 0xffffu32) & (cd >> 16) == 0,
            ((cd & 0xffffu32) | (cd >> 16)) & (1u32 << tb) == 0,
            ((cd >> 16) >> c) & 1u32 == 1u32,
    ;
}

/// Forward/backward duality: the retrograde enumeration of every successor
/// contains a step that reconstructs the position the successor came from —
/// exactly the original position when the move captured nothing, and the
/// original less the captured piece otherwise, with the vacated-square mask
/// naming the one square that may differ.
pub proof fn lemma_forward_backward_duality(g: Game, t: CardTables, i: int)
    requires
        t.wf(),
        g.wf(),
        g.cards_distinct(),
        g.boards_disjoint(),
        bit(g.my, g.my_king()),
        g.my_king() != 22,
        0 <= i < g.moves(t).len(),
    ensures
        ({
            let m = g.moves(t)[i];
            let s = g.step(m);
            exists|j: int|
                0 <= j < s.back_moves(t).len() && {
                    let bm = #[trigger] s.back_moves(t)[j];
                    &&& s.back_step(bm).my == g.my
                    &&& s.back_step(bm).other == !((1u32 << 24) >> m.to) & g.other
                    &&& s.back_step(bm).cards == g.cards
                    &&& s.back_step(bm).table == g.table
                    &&& s.back_mask(bm) == (1u32 << 24) >> m.to
                    &&& (g.other & ((1u32 << 24) >> m.to) == 0 ==> s.back_step(bm) == g)
                }
        }),
{
    lemma_moves_index(g, t, i);
    lemma_bit_ops();
    let m = g.moves(t)[i];
    let s = g.step(m);
    let bm = Move { from: m.from, card: g.table, to: m.to };
    let my = g.my;
    let other = g.other;
    let cd = g.cards;
    let c = m.card;
    let tb = g.table;
    let f = m.from;
    let to = m.to;
    let kk = g.my_king();
    let mc = cd ^ (1u32 << c) ^ (1u32 << tb);
    let moved0 = my ^ (1u32 << f) ^ (1u32 << to);
    let cap = (24 - to) as u32;
    lemma_rev25(s.my);

    assert((1u32 << 24) >> to == 1u32 << cap) by (bit_vector)
        requires
            to < 25,
            cap == 24 - to,
    ;

    // The moved piece stands on `to` in the successor's opponent mask.
    assert(f != to && bit(moved0, to) && !bit(moved0, f));
    if f == kk {
        assert(s.other == (moved0 & 0x1ffffffu32) | (to << 25));
        assert(bit(s.other, to) && !bit(s.other, f));
        assert(((moved0 & 0x1ffffffu32) | (to << 25)) >> 25 == to) by (bit_vector)
            requires
                to < 25,
        ;
    } else {
        assert(moved0 >> 25 == my >> 25) by (bit_vector)
            requires
                f < 25,
                to < 25,
                moved0 == my ^ (1u32 << f) ^ (1u32 << to),
        ;
        assert(s.other_king() == kk && kk != to);
    }
    assert(bit(s.other_pieces(), to));

    // The card that was on the table is now in the mover's old hand.
    assert(((mc << 16) | (mc >> 16)) >> 16 == (cd & 0xffffu32) ^ (1u32 << c) ^ (1u32 << tb))
        by (bit_vector)
        requires
            c < 16,
            tb < 16,
            mc == cd ^ (1u32 << c) ^ (1u32 << tb),
    ;
    assert(!bit(g.my_cards_mask() | g.other_cards_mask(), tb));
    assert(!bit(cd & 0xffffu32, tb) && c != tb);
    assert(bit(s.other_cards_mask(), tb));

    // The origin square is an unblocked retrograde origin of the successor.
    assert(bit(t.src(c, to), f));
    assert(!bit(s.my, (24 - f) as u32)) by {
        assert(!(bit(my, f) && bit(other, (24 - f) as u32)));
        assert(bit(s.my, (24 - f) as u32) == (bit(other, (24 - f) as u32) && (24 - f) as u32
            != cap));
    }
    assert(!bit(rev25(s.my), f));
    if f == kk {
        assert(to == s.other_king());
        assert(!bit(1u32 << 22, f));
    } else {
        assert(to != s.other_king());
    }
    assert(!bit(s.back_blockers(to), f));
    assert(bit(s.back_froms(t, to), f));

    lemma_back_moves_contains(s, t, bm);
    let j = choose|j: int| 0 <= j < s.back_moves(t).len() && #[trigger] s.back_moves(t)[j] == bm;

    // Undoing the card swap returns the original card field.
    let sc = s.cards;
    assert(((sc << 16) | (sc >> 16)) ^ (1u32 << tb) ^ (1u32 << c) == cd) by (bit_vector)
        requires
            c < 16,
            tb < 16,
            sc == ((cd ^ (1u32 << c) ^ (1u32 << tb)) << 16) | ((cd ^ (1u32 << c) ^ (1u32 << tb))
                >> 16),
    ;

    // Undoing the piece move returns the original mover mask.
    let so = s.other;
    if f == kk {
        assert(to == s.other_king());
        assert((((so ^ (1u32 << to) ^ (1u32 << f)) & 0x1ffffffu32) | (f << 25)) == my)
            by (bit_vector)
            requires
                f < 25,
                to < 25,
                my >> 25 == f,
                so == (((my ^ (1u32 << f) ^ (1u32 << to)) & 0x1ffffffu32) | (to << 25)),
        ;
    } else {
        assert(so ^ (1u32 << to) ^ (1u32 << f) == my) by (bit_vector)
            requires
                so == my ^ (1u32 << f) ^ (1u32 << to),
        ;
    }
    assert(s.back_step(bm).my == g.my);
    assert(s.back_step(bm).cards == g.cards);

    if g.other & ((1u32 << 24) >> to) == 0 {
        let msk = (1u32 << 24) >> to;
        assert(!msk & other == other) by (bit_vector)
            requires
                other & msk == 0,
        ;
        assert(s.back_step(bm) == g);
    }
    assert(0 <= j < s.back_moves(t).len() && {
        let b2 = s.back_moves(t)[j];
        &&& s.back_step(b2).my == g.my
        &&& s.back_step(b2).other == !((1u32 << 24) >> m.to) & g.other
        &&& s.back_step(b2).cards == g.cards
        &&& s.back_step(b2).table == g.table
        &&& s.back_mask(b2) == (1u32 << 24) >> m.to
        &&& (g.other & ((1u32 << 24) >> m.to) == 0 ==> s.back_step(b2) == g)
    });
}

/// Terminal interplay: a position the oracle calls won has a successor in
/// which the opponent, then to move, has lost — its king is captured, or the
/// mover's king stands on the temple arch.
pub proof fn lemma_win_gives_losing_successor(g: Game, t: CardTables)
    requires
        t.wf(),
        g.wf(),
        g.boards_disjoint(),
        bit(g.other, g.other_king()),
        g.my & (1u32 << 22) == 0,
        g.win_spec(t),
    ensures
        exists|i: int| 0 <= i < g.moves(t).len() && (#[trigger] g.step(g.moves(t)[i])).loss_spec(),
{
    lemma_bit_ops();
    let (f, c): (u32, u32) = choose|f: u32, c: u32|
        f < 25 && c < 16 && bit(g.my_pieces(), f) && bit(g.my_cards_mask(), c)
            && #[trigger] g.winning_move(t, f, c);
    let ok = g.other_king();
    let my = g.my;
    let other = g.other;
    if t.dst(c, f) & g.other_king_bit() != 0 {
        let to = (24 - ok) as u32;
        assert((1u32 << 24) >> ok == 1u32 << to) by (bit_vector)
            requires
                ok < 25,
                to == 24 - ok,
        ;
        assert(bit(t.dst(c, f), to));
        assert(!(bit(g.my, to) && bit(g.other, ok)));
        assert(bit(g.dests(t, f, c), to));
        let m = Move { from: f, card: c, to: to };
        lemma_moves_contains(g, t, m);
        let i = choose|i: int| 0 <= i < g.moves(t).len() && #[trigger] g.moves(t)[i] == m;
        let s = g.step(m);
        assert((1u32 << 24) >> to == 1u32 << ok) by (bit_vector)
            requires
                to < 25,
                ok == 24 - to,
        ;
        assert((!((1u32 << 24) >> to) & other) >> 25 == other >> 25) by (bit_vector)
            requires
                to < 25,
        ;
        assert(s.my_king() == ok);
        assert(!bit(s.my, ok));
        assert(s.my & (1u32 << ok) == 0);
        assert(s.loss_spec());
    } else {
        let to = 22u32;
        assert(f == g.my_king() && bit(t.dst(c, f), to));
        assert(!bit(g.my, to));
        assert(bit(g.dests(t, f, c), to));
        let m = Move { from: f, card: c, to: to };
        lemma_moves_contains(g, t, m);
        let i = choose|i: int| 0 <= i < g.moves(t).len() && #[trigger] g.moves(t)[i] == m;
        let s = g.step(m);
        let moved0 = my ^ (1u32 << f) ^ (1u32 << to);
        assert(((moved0 & 0x1ffffffu32) | (to << 25)) >> 25 == to) by (bit_vector)
            requires
                to < 25,
        ;
        assert(s.other_king() == 22);
        assert(s.loss_spec());
    }
}

} // verus!
