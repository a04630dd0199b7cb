//! The scheduling, deck and session core of a country-location flashcard app.
pub mod date;
pub mod deck;
pub mod scheduler;
pub mod store;
pub mod text;
pub mod map;
pub mod review;
pub mod settings;
pub mod session;
