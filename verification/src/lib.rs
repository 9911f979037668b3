//! Read-only indexed lookup over a fixed corpus of verse records.
//!
//! A [`Verse`] is one record of the corpus, identified by the triple
//! (book code, chapter number, verse number). [`build_index`] turns an
//! ordered sequence of records into a [`Books`] value: the record store
//! together with a nested book -> chapter -> verse index of positions.
//! [`Books::get_verse`] answers exact-key point queries.

pub mod dataset;
pub mod index;
pub mod laws;

pub use dataset::Verse;
pub use index::{BookIndex, Books, ChapterIndex, build_index};
