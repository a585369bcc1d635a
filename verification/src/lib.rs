//! The rules behind an image search service over PDF and AI design files:
//! what is indexed and when, how candidates are found, merged and ranked, and
//! what the worker processes, the watcher and the web interface decide.
//!
//! Everything here is pure computation on plain values. Reading files, talking
//! to the database, running the neural networks and serving requests are done
//! by the program around this library.

pub mod bytes;
pub mod chunks;
pub mod cli;
pub mod config;
pub mod crash_handler;
pub mod embedder;
pub mod error;
pub mod evaluate;
pub mod float32;
pub mod indexer;
pub mod license;
pub mod ocr;
pub mod order;
pub mod paths;
pub mod search;
pub mod service;
pub mod storage;
pub mod text;
pub mod web;
pub mod worker_proc;
