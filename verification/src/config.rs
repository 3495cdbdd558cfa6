//! The settings of an exporter, as plain values.

use vstd::prelude::*;

verus! {

/// All settings of an exporter.
#[derive(Clone, Debug)]
pub struct Config {
    pub prometheus: PrometheusConfig,
    pub chain: ChainConfig,
}

/// Where the scrape endpoint listens.
#[derive(Clone, Debug)]
pub struct PrometheusConfig {
    pub host: String,
    pub port: u16,
}

/// What is watched, how often, and where the events come from.
#[derive(Clone, Debug)]
pub struct ChainConfig {
    /// The names of the watched networks.
    pub watch_list: Vec<String>,
    /// The time between two fetches, as a duration text such as `30s`.
    pub refresh: String,
    /// The address that the events are fetched from.
    pub endpoint: String,
}

} // verus!
