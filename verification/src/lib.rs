//! IgniteMS: a batch text embedding engine.
//!
//! A run takes messages, each an ID and a text, and gives an embedding for each:
//!
//! - Tokenizer workers normalize the texts, look their embeddings up in the dedup cache, and
//!   tokenize the others ([`normalize`], [`dedup`], [`tokenize`], [`worker`]).
//! - Batchers, one for each bucket of lengths, gather the tokenized messages into padded batches,
//!   and see that none waits too long ([`bucket`], [`assembler`], [`batcher`]).
//! - Inference turns batches into embeddings. What comes back goes to the client and into the dedup
//!   cache ([`inference`], [`sessions`], [`delivery`]).
//! - The collector puts the rows in the order of the input, and the writers make files of them
//!   ([`reorder`], [`collector`], [`npy`], [`output`]).
//!
//! Around it stand the engine and its configuration ([`engine`], [`config`]), the model's files
//! ([`cache`], [`provision`]), what is asked of its tokenizer ([`components`], [`charsmap`],
//! [`postprocess`]), the input ([`files`], [`input`], [`json`]), the commands ([`embed`],
//! [`bench`]), and what is counted and reported ([`stats`], [`report`], [`monitor`]).
//!
//! What holds of a run as a whole, in whatever order its threads work, is stated in [`run`] and
//! [`rows`]: every message comes back once, every row holds its own message, the dedup cache changes
//! no IDs, the report adds up, and the rows of the output are in the order of the input.
//!
//! The library holds the decisions and the data. Files, threads, processes and the native inference
//! calls are its caller's.

pub mod assembler;
pub mod batcher;
pub mod bench;
pub mod bucket;
pub mod cache;
pub mod charsmap;
pub mod collector;
pub mod components;
pub mod config;
pub mod dedup;
pub mod delivery;
pub mod embed;
pub mod engine;
pub mod error;
pub mod files;
pub mod inference;
pub mod input;
pub mod json;
pub mod list;
pub mod little_endian;
pub mod monitor;
pub mod normalize;
pub mod npy;
pub mod number;
pub mod output;
pub mod postprocess;
pub mod provision;
pub mod reorder;
pub mod report;
pub mod rows;
pub mod run;
pub mod sessions;
pub mod stats;
pub mod tally;
pub mod text;
pub mod tokenize;
pub mod utf8;
pub mod worker;

pub use config::{Config, Message};
pub use engine::Engine;
pub use error::Error;
pub use report::EmbedStats;
pub use stats::LatencyStats;
pub use worker::EmbeddingBatch;
