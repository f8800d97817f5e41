//! Turns Pathfinder 2e source text into structured rule candidates.

pub mod text;
pub mod domain;
pub mod error;
pub mod encoding;
pub mod ids;
pub mod kernel_client;
pub mod dispatch;
pub mod parser;
pub mod book_adapter;
pub mod postgres_candidate_repository;
