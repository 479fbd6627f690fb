//! Scoring engine for French Tarot game sessions.
//!
//! The library records one played hand as a [`game::CompletedHand`] and turns
//! it into a zero-sum distribution of points over the players at the table
//! ([`scoring::score`]), aggregates whole games ([`scoring::score_hands`]),
//! addresses hands by a `number-table` key ([`game::hand_id`],
//! [`game::hand_number_and_table`]), and resolves the HTTP-facing glue that
//! is pure computation: route matching ([`routes`]) and form decoding
//! ([`forms`]).

pub mod forms;
pub mod game;
pub mod num;
pub mod routes;
pub mod scores;
pub mod scoring;
pub mod text;
