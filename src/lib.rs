//! Experience notes: front-matter framing, point totals and levels, and the
//! dated export of note bodies.
pub mod export;
pub mod front_matter;
pub mod points;
pub mod timestamp;
