//! Process configuration for the engine: addresses of the collaborating
//! services and the snapshot policy. Reading the environment is the
//! embedding's concern; the core holds the values and their defaults.

use vstd::prelude::*;

verus! {

/// Engine configuration.
#[derive(Debug, Clone)]
pub struct Config {
    pub grpc_addr: String,
    pub metrics_port: u16,
    pub kafka_brokers: String,
    pub kafka_topic: String,
    pub snapshot_interval: u64,
    pub snapshot_path: String,
}

impl Default for Config {
    /// The stock configuration.
    fn default() -> (r: Config)
        ensures
            r.grpc_addr@ == "0.0.0.0:9090"@,
            r.metrics_port == 9091,
            r.kafka_brokers@ == "localhost:9092"@,
            r.kafka_topic@ == "trades"@,
            r.snapshot_interval == 10000,
            r.snapshot_path@ == "./snapshots"@,
    {
        Config {
            grpc_addr: String::from_str("0.0.0.0:9090"),
            metrics_port: 9091,
            kafka_brokers: String::from_str("localhost:9092"),
            kafka_topic: String::from_str("trades"),
            snapshot_interval: 10000,
            snapshot_path: String::from_str("./snapshots"),
        }
    }
}

} // verus!
