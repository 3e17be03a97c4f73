use onitama_move_gen::bits::{popcount, reverse25, BitIter, CardIter};
use onitama_move_gen::game::Game;
use onitama_move_gen::tables::CardTables;

/// Builds the geometry tables from one offset list per card: `shifted` by
/// applying the offsets inside the 5x5 board, `shifted_r` as its transpose,
/// which is exactly the reverse-reading contract the core relies on.
fn tables_from_offsets(offsets: [&[(i32, i32)]; 16]) -> CardTables {
    let mut shifted = vec![vec![0u32; 25]; 16];
    let mut shifted_r = vec![vec![0u32; 25]; 16];
    for c in 0..16 {
        for sq in 0..25usize {
            let r = (sq / 5) as i32;
            let col = (sq % 5) as i32;
            let mut mask = 0u32;
            for &(dr, dc) in offsets[c] {
                let nr = r + dr;
                let nc = col + dc;
                if (0..5).contains(&nr) && (0..5).contains(&nc) {
                    mask |= 1 << (nr * 5 + nc);
                }
            }
            shifted[c][sq] = mask;
        }
    }
    for c in 0..16 {
        for f in 0..25 {
            for to in 0..25 {
                if shifted[c][f] & (1 << to) != 0 {
                    shifted_r[c][to] |= 1 << f;
                }
            }
        }
    }
    CardTables { shifted, shifted_r }
}

/// Card 0 steps one row up the board, card 1 one column right, card 2 one row
/// down, card 3 one column left, card 4 diagonally up-right; the rest are
/// inert.
fn small_tables() -> CardTables {
    tables_from_offsets([
        &[(1, 0)],
        &[(0, 1)],
        &[(-1, 0)],
        &[(0, -1)],
        &[(1, 1)],
        &[],
        &[],
        &[],
        &[],
        &[],
        &[],
        &[],
        &[],
        &[],
        &[],
        &[],
    ])
}

fn game(my_pieces: u32, my_king: u32, other_pieces: u32, other_king: u32) -> Game {
    Game {
        my: my_pieces | (my_king << 25),
        other: other_pieces | (other_king << 25),
        cards: 0b11 | (0b1100 << 16),
        table: 4,
    }
}

fn successors(g: &Game, t: &CardTables) -> Vec<Game> {
    let mut out = Vec::new();
    let mut it = g.forward();
    while let Some(s) = it.next(t) {
        out.push(s);
    }
    out
}

fn predecessors(g: &Game, t: &CardTables) -> Vec<(Game, u32)> {
    let mut out = Vec::new();
    let mut it = g.backward();
    while let Some(p) = it.next(t) {
        out.push(p);
    }
    out
}

#[test]
fn bit_iter_ascends_and_consumes() {
    let mut it = BitIter(0b1010_0100_0001);
    assert_eq!(it.next(), Some(0));
    assert_eq!(it.next(), Some(6));
    assert_eq!(it.next(), Some(9));
    assert_eq!(it.next(), Some(11));
    assert_eq!(it.next(), None);
    assert_eq!(it.next(), None);
}

#[test]
fn card_iter_reads_low_half_only() {
    let mut it = CardIter::new(0b0101 | (0b11 << 16));
    assert_eq!(it.next(), Some(0));
    assert_eq!(it.next(), Some(2));
    assert_eq!(it.next(), None);
}

#[test]
fn popcount_counts_set_bits() {
    assert_eq!(popcount(0), 0);
    assert_eq!(popcount(u32::MAX), 32);
    assert_eq!(popcount(0b1011_0001), 4);
}

#[test]
fn reverse25_maps_square_to_opposite() {
    assert_eq!(reverse25(1), 1 << 24);
    assert_eq!(reverse25(1 << 24), 1);
    assert_eq!(reverse25((1 << 7) | (1 << 22)), (1 << 17) | (1 << 2));
    // Bits above the board are dropped.
    assert_eq!(reverse25(0xffff_ffff), 0x1ff_ffff);
}

#[test]
fn count_pieces_counts_the_mover_only() {
    let g = game(0b101, 0, 1 << 17, 17);
    assert_eq!(g.count_pieces(), 2);
}

#[test]
fn loss_by_arch_breach() {
    // The opponent's king index is the temple arch.
    let g = game(0b101, 0, 1 << 22, 22);
    assert!(g.is_loss());
    assert!(!g.is_other_loss());
}

#[test]
fn loss_by_captured_king() {
    // The mover's king square carries no piece.
    let g = game(0b10, 1, (1 << 3) | (1 << 24), 24);
    assert!(!g.is_loss());
    let captured = Game { my: 0b10 | (3 << 25), ..g };
    assert!(captured.is_loss());
}

#[test]
fn other_loss_mirrors_loss() {
    let arch = game(1 << 22, 22, 1, 0);
    assert!(arch.is_other_loss());
    let captured = game(1, 0, 0b10, 3);
    assert!(captured.is_other_loss());
    let fine = game(1, 0, 1, 0);
    assert!(!fine.is_other_loss());
}

/// A minimal two-piece-per-side position with a known card pair: the exact
/// hand-computed move count, agreement between the oracle, the reported
/// length and the enumeration, and no successor sharing a card between hands.
#[test]
fn two_piece_scenario_counts_and_conserves_cards() {
    let t = small_tables();
    // King on square 2, pawn on square 6; cards 0 (up) and 1 (right).
    // From 2: up to 7, right to 3. From 6: up to 11, right to 7.
    let g = game((1 << 2) | (1 << 6), 2, (1 << 2) | (1 << 6), 2);
    assert_eq!(g.count_moves(&t), 4);
    let it = g.forward();
    assert_eq!(it.len(&t), 4);
    let succ = successors(&g, &t);
    assert_eq!(succ.len(), 4);
    for s in &succ {
        let my_hand = s.cards & 0xffff;
        let other_hand = s.cards >> 16;
        assert_eq!(my_hand.count_ones(), 2);
        assert_eq!(other_hand.count_ones(), 2);
        assert_eq!(my_hand & other_hand, 0);
        assert_eq!((my_hand | other_hand) & (1 << s.table), 0);
        // The new mover is the old opponent: its hand carried over.
        assert_eq!(my_hand, 0b1100);
    }
    // The played cards, in enumeration order: origin 2 before 6, card 0
    // before 1 for each origin.
    let played: Vec<u32> = succ.iter().map(|s| s.table).collect();
    assert_eq!(played, vec![0, 1, 0, 1]);
}

/// The reported length reflects the original position, not the partially
/// consumed cursor.
#[test]
fn len_ignores_consumption() {
    let t = small_tables();
    let g = game((1 << 2) | (1 << 6), 2, (1 << 2) | (1 << 6), 2);
    let mut it = g.forward();
    assert_eq!(it.len(&t), 4);
    assert!(it.next(&t).is_some());
    assert_eq!(it.len(&t), 4);
}

#[test]
fn forward_on_empty_board_yields_nothing() {
    let t = small_tables();
    let g = game(0, 0, 1, 0);
    let mut it = g.forward();
    assert_eq!(it.next(&t), None);
}

/// An opponent king one card-move from a mover's piece: the oracle reports a
/// win and the capturing successor leaves the king square empty.
#[test]
fn king_capture_scenario() {
    let t = small_tables();
    // My pawn on square 2; the opponent king stands on square 7 of my frame,
    // which is square 17 of its own frame. Card 0 moves 2 -> 7.
    let g = game((1 << 0) | (1 << 2), 0, 1 << 17, 17);
    assert!(g.is_win(&t));
    let succ = successors(&g, &t);
    let capture = succ
        .iter()
        .find(|s| s.my & (1 << 17) == 0 && s.my >> 25 == 17)
        .expect("the capturing successor is enumerated");
    assert!(capture.is_loss());
    assert!(!g.is_loss());
}

/// The mover's king one card-move from the temple arch: the oracle reports a
/// win and the successor records the king on the temple arch.
#[test]
fn king_arch_scenario() {
    let t = small_tables();
    // My king on square 17; card 0 moves 17 -> 22, the temple arch.
    let g = game(1 << 17, 17, (1 << 2) | (1 << 6), 2);
    assert!(g.is_win(&t));
    let succ = successors(&g, &t);
    let breach = succ
        .iter()
        .find(|s| s.other >> 25 == 22)
        .expect("the arch-breaching successor is enumerated");
    assert!(breach.is_loss());
}

#[test]
fn no_win_without_reach() {
    let t = small_tables();
    let g = game((1 << 2) | (1 << 6), 2, (1 << 2) | (1 << 6), 2);
    assert!(!g.is_win(&t));
}

/// Every successor's retrograde enumeration recovers the original position
/// (the scenario's moves capture nothing, so the match is exact), with the
/// vacated-square mask naming the destination square.
#[test]
fn backward_recovers_forward() {
    let t = small_tables();
    let g = game((1 << 2) | (1 << 6), 2, (1 << 2) | (1 << 6), 2);
    let succ = successors(&g, &t);
    assert_eq!(succ.len(), 4);
    for s in &succ {
        let preds = predecessors(s, &t);
        let hit = preds.iter().find(|(p, _)| *p == g);
        assert!(hit.is_some(), "backward must contain the origin position");
        let (_, mask) = hit.unwrap();
        // The mask is the one-bit reverse-frame reading of some destination
        // square now occupied in the successor.
        assert_eq!(mask.count_ones(), 1);
        assert!(s.other & reverse25(*mask) != 0);
        // Retrograde steps conserve the five card identities too.
        for (p, _) in &preds {
            let my_hand = p.cards & 0xffff;
            let other_hand = p.cards >> 16;
            assert_eq!(my_hand.count_ones(), 2);
            assert_eq!(other_hand.count_ones(), 2);
            assert_eq!(my_hand & other_hand, 0);
            assert_eq!((my_hand | other_hand) & (1 << p.table), 0);
        }
    }
}

/// Forward, then backward to the recovered origin, then forward again
/// reproduces the same two-ply enumeration as forward from the successor.
#[test]
fn two_ply_perspective_round_trip() {
    let t = small_tables();
    let g = game((1 << 2) | (1 << 6), 2, (1 << 2) | (1 << 6), 2);
    for s in &successors(&g, &t) {
        let preds = predecessors(s, &t);
        let (p, _) = preds.iter().find(|(p, _)| *p == g).unwrap();
        // The recovered position enumerates exactly what the original did.
        assert_eq!(successors(p, &t), successors(&g, &t));
        // And the successor's own hand layout is the swapped reading.
        assert_eq!(s.cards & 0xffff, g.cards >> 16);
    }
}

/// The boundary validators accept the scenario inputs and reject malformed
/// ones.
#[test]
fn validators_accept_and_reject() {
    let t = small_tables();
    assert!(t.is_valid());
    let mut broken = small_tables();
    broken.shifted[0][3] |= 1 << 9;
    assert!(!broken.is_valid(), "reverse table no longer matches");
    let mut off_board = small_tables();
    off_board.shifted_r[2][1] |= 1 << 30;
    assert!(!off_board.is_valid(), "a mask leaves the board");

    let g = game((1 << 2) | (1 << 6), 2, (1 << 2) | (1 << 6), 2);
    assert!(g.is_valid());
    let shared_card = Game { cards: 0b11 | (0b0110 << 16), ..g };
    assert!(!shared_card.is_valid(), "card 1 sits in both hands");
    let table_in_hand = Game { table: 1, ..g };
    assert!(!table_in_hand.is_valid(), "the table card sits in a hand");
    let one_card = Game { cards: 0b1 | (0b1100 << 16), ..g };
    assert!(!one_card.is_valid(), "a hand of one card");
    let overlap = game((1 << 2) | (1 << 6), 2, (1 << 18) | (1 << 2), 2);
    assert!(!overlap.is_valid(), "square 6 is occupied by both sides");
    let stray_king = Game { my: (1 << 2) | (25 << 25), ..g };
    assert!(!stray_king.is_valid(), "king index off the board");
}

/// The move count agrees with the enumeration on a variety of positions.
#[test]
fn count_matches_enumeration() {
    let t = small_tables();
    let positions = vec![
        game((1 << 2) | (1 << 6), 2, (1 << 2) | (1 << 6), 2),
        game(1 << 17, 17, (1 << 2) | (1 << 6), 2),
        game((1 << 0) | (1 << 2), 0, 1 << 17, 17),
        game(0b11111, 2, 0b11111, 2),
        game(1 << 24, 24, 1 << 24, 24),
    ];
    for g in positions {
        assert_eq!(g.count_moves(&t) as usize, successors(&g, &t).len());
    }
}

/// Captures remove exactly the destination square from the opponent mask.
#[test]
fn capture_clears_the_taken_square() {
    let t = small_tables();
    // My pawn on 2 can capture the opponent pawn standing on square 7 of my
    // frame (square 17 of the opponent's frame).
    let g = game((1 << 0) | (1 << 2), 0, (1 << 17) | (1 << 20), 20);
    let succ = successors(&g, &t);
    let capture = succ.iter().find(|s| s.table == 0 && s.other & (1 << 7) != 0 && s.other >> 25 == 0);
    let capture = capture.expect("the capturing successor is enumerated");
    assert_eq!(capture.my & (1 << 17), 0);
    assert!(capture.my & (1 << 20) != 0);
    assert_eq!(capture.my >> 25, 20);
}
