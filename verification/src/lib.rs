//! Metrics collection: text exposition, storage, snapshots, HTTP API.

pub mod text;
pub mod order;
pub mod sorted;
pub mod natural;
pub mod numeral;
pub mod binary64;
pub mod decimal;
pub mod decimal_laws;
pub mod number_laws;
pub mod model;
pub mod textfmt;
pub mod textfmt_laws;
pub mod line_laws;
pub mod roundtrip;
pub mod storage;
pub mod store_laws;
pub mod retention_laws;
pub mod snapshot;
pub mod snapshot_laws;
pub mod layout_laws;
pub mod json;
pub mod http;
pub mod percent_laws;
pub mod message_laws;
pub mod config;
pub mod config_laws;
pub mod value_laws;
pub mod wording_laws;
pub mod dashboard;
pub mod api;
pub mod api_laws;
pub mod query_laws;
pub mod answer_laws;
pub mod scraper;
pub mod scrape_laws;
