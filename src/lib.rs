//! Reading progress for serialized web fiction: chapter-page extraction,
//! chapter-URL arithmetic, update checks and the library store.
pub mod data;
pub mod error;
pub mod navigate;
pub mod reader;
pub mod scrape;
pub mod state;
pub mod text;
