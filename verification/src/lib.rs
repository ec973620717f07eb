//! Fuzzy similarity of two texts, as a whole number of hundredths.

pub mod bag;
pub mod blend;
pub mod chars;
pub mod chunk;
pub mod laws;
pub mod ratio;
pub mod scorer;
pub mod text;
pub mod window;
