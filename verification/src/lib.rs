//! The decision core of a rate-limit-aware, multi-provider proxy for
//! OpenAI-compatible LLM APIs.

pub mod auth;
pub mod cache;
pub mod config;
pub mod console;
pub mod crypto;
pub mod dispatch;
pub mod exchange;
pub mod governor;
pub mod harvest;
pub mod hashing;
pub mod history;
pub mod json;
pub mod ledger;
pub mod metrics;
pub mod models;
pub mod net;
pub mod pool;
pub mod proxy;
pub mod reply;
pub mod seqs;
pub mod settings;
pub mod setup;
pub mod table;
pub mod text;
