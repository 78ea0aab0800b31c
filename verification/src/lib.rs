//! A URL shortener: the store of links, its log and the requests on it.

pub mod aof;
pub mod app;
pub mod app_laws;
pub mod base62;
pub mod bench;
pub mod codec;
pub mod codec_laws;
pub mod config;
pub mod fxmap;
pub mod hits_laws;
pub mod kv;
pub mod kv_jobs;
pub mod kv_laws;
pub mod listing;
pub mod lru;
pub mod metrics;
pub mod ratelimit;
pub mod rocks_jobs;
pub mod rocks_laws;
pub mod server_hyper;
pub mod server_laws;
pub mod server_mini;
pub mod sibling_laws;
pub mod sort;
pub mod store;
pub mod store_kv;
pub mod store_laws;
pub mod store_rocks;
pub mod text;
