//! A batch-built, sharded inverted index with skip-list lookup and ranked
//! retrieval. Every function in this crate carries a contract that is checked
//! by Verus; the few calls into other crates are isolated behind small
//! trusted wrappers whose documentation says what is taken on trust.

pub mod file_skip_list;
pub mod id_book;
pub mod index_builder;
pub mod inverted_index;
pub mod lazy_merger;
pub mod merge_laws;
pub mod postings;
pub mod query;
pub mod single_posting;
pub mod skip_list_laws;
pub mod text;
pub mod tokenizer;
