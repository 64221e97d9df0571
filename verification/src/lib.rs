//! A full-text search engine core: schemas, tokenization, an inverted index
//! with typo-tolerant lookup, batched updates and ranked queries.

pub mod health;
pub mod sorted;
pub mod types;
pub mod word;
pub mod levenshtein;
pub mod tokenizer;
pub mod doc_ids;
pub mod index;
pub mod siphash;
pub mod text;
pub mod number;
pub mod document;
pub mod schema;
pub mod ranked_bytes;
pub mod ranked_map;
pub mod document_key;
pub mod update;
pub mod serializer;
pub mod criterion;
pub mod rank;
pub mod store;
pub mod index_map;
pub mod index_bytes;
pub mod state;
pub mod config;
pub mod matching;
pub mod crop;
pub mod database;
pub mod query;
pub mod cancel;
pub mod option;
pub mod guard;
pub mod batch;
pub mod laws;
pub mod laws_commit;
pub mod laws_update;
pub mod laws_round_trip;
pub mod laws_ranked;
pub mod laws_answers;
pub mod laws_names;
pub mod laws_places;
pub mod laws_stored;
