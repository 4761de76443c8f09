//! Metrics exporter configuration. The counters themselves and the
//! scrape endpoint live with the embedding; the core carries only the
//! exporter's settings.

use vstd::prelude::*;

verus! {

/// Prometheus-style metrics exporter, addressed by port.
#[derive(Debug, Clone, Copy)]
pub struct MetricsExporter {
    port: u16,
}

impl MetricsExporter {
    /// The port the exporter serves on.
    pub closed spec fn spec_port(&self) -> u16 {
        self.port
    }

    pub fn new(port: u16) -> (r: Result<MetricsExporter, String>)
        ensures
            r matches Ok(m) && m.spec_port() == port,
    {
        Result::Ok(MetricsExporter { port })
    }

    /// The configured port.
    pub fn port(&self) -> (r: u16)
        ensures
            r == self.spec_port(),
    {
        self.port
    }
}

} // verus!
