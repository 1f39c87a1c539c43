//! Deck parameters and layout reading.
pub mod params;
pub mod read;
