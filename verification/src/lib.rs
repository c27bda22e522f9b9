//! Assembly, ordering and validation of romaji input tables.

pub mod build_roman_table;
pub mod detect_duplicates;
pub mod lines;
pub mod order;
pub mod romaji;
pub mod table;
pub mod text;
pub mod with_emoji;
