pub mod batch;
pub mod decks;
pub mod error;
pub mod merge;
pub mod models;
pub mod request;
pub mod retry;
pub mod utils;
