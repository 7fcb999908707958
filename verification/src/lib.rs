//! A bang-style search redirector: a query may carry a shorthand token (a
//! "bang", e.g. `!gh`) that selects a configured search engine; the rest of
//! the query is percent-encoded and substituted into that engine's URL
//! template. Absent a recognized bang, the full query goes to the default
//! engine.
//!
//! `bangs` extracts the bang token, `config` holds the two-tier registry and
//! its authorization rule, `resolver` builds the redirect decision, `listing`
//! enumerates the visible bangs sorted by token, and `order` supplies the
//! lexicographic order the listing uses.

pub mod bangs;
pub mod config;
pub mod listing;
pub mod models;
pub mod order;
pub mod resolver;
