//! Shiori, a search workbench for flashcard decks and study materials: importing decks, reading
//! materials, searching cards by terms and by nearness, and exporting a selection.

pub mod asked;
pub mod candidates;
pub mod chars;
pub mod config;
pub mod db;
pub mod deck;
pub mod detail;
pub mod evidence;
pub mod export;
pub mod external;
pub mod files;
pub mod json;
pub mod kept;
pub mod lexical;
pub mod markup;
pub mod material;
pub mod media;
pub mod models;
pub mod numbers;
pub mod order;
pub mod paths;
pub mod provenance;
pub mod query;
pub mod records;
pub mod rerank;
pub mod routes;
pub mod scroll;
pub mod search;
pub mod service;
pub mod shim;
pub mod shown;
pub mod strings;
pub mod text;
