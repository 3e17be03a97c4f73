//! Move-generation core for the board game Onitama.
//!
//! A [`game::Game`] value is one immutable position: the two sides' piece
//! masks and king squares, the cards each side holds, and the card on the
//! table. The geometry of the sixteen movement cards is supplied by the
//! caller as a [`tables::CardTables`] value. On top of these the crate
//! offers terminal-state oracles, a fast move counter, and lazy forward and
//! retrograde enumerators of successor and predecessor positions, each with
//! a contract that pins its result down exactly.

pub mod bits;
pub mod game;
pub mod laws;
pub mod tables;
