//! A collection of small verified libraries: packet parsing and firewalling,
//! priority queues, sorted-vector search, fixed-capacity containers, string
//! interning, caches, configuration builders and text utilities.
pub mod text;

pub mod packets;
pub mod order;
pub mod priority_queue;
pub mod sorted_search;
pub mod kway;
pub mod regex;
pub mod interning;
pub mod fixed;
pub mod lru;
pub mod tokens;
pub mod expression;
pub mod safe_config;
pub mod streaming;
pub mod plugins;
pub mod propgen;
pub mod combinators;
pub mod timeseries;
pub mod scraper;
pub mod underlines;
pub mod csv_records;
pub mod user_import;
pub mod mutation;
pub mod source_coverage;
pub mod config_check;
pub mod config_schema;
pub mod parallel;
pub mod json_string;
