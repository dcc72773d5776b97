//! Playing cards, a double-ended deck, and the scoring of cribbage hands.
//!
//! `cards` holds suits, ranks, plain cards and the deck; `cribbage_cards`
//! the card as cribbage counts it; `cribbage_scoring` the detectors and the
//! scoring of a hand; `scoring_model` says what they find, and proves what
//! holds of it. Every function of this crate carries a contract that Verus
//! proves.

pub mod cards;
pub mod cribbage_cards;
pub mod cribbage_scoring;
pub mod scoring_model;
