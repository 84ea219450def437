//! Exact integer block codecs, checked framing and event timing for market data.
pub mod timing;
pub mod types;
pub mod le;
pub mod wrappers;
pub mod error;
pub mod data;
pub mod bitsum;
pub mod block;
pub mod block_roundtrip;
pub mod adaptive;
pub mod book;
pub mod real_block;
pub mod codec;
pub mod market;
pub mod batch;
pub mod text;
pub mod segment;
pub mod index;
pub mod limits;
pub mod native;
pub mod schema;
pub mod quotient;
pub mod book_roundtrip;
pub mod adaptive_roundtrip;
pub mod parquet_file;
pub mod real_layout;
pub mod recovery;
pub mod dictionary;
