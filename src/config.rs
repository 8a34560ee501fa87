use vstd::prelude::*;

use std::time::Duration;

use crate::proxy::RuleTable;

verus! {

/// What the proxy is set up with: where it listens, where it sends queries from and to, how
/// large a datagram may be, how long a socket waits, how many requests it handles at once,
/// and the rules that answer queries locally.
pub struct Config {
    pub bind_address: String,
    pub upstream_address: String,
    pub egress_address: String,
    pub max_packet_size: usize,
    pub read_timeout: Duration,
    pub write_timeout: Duration,
    pub max_concurrent_requests: usize,
    pub rules: RuleTable,
}

impl Config {
    pub fn new(
        bind_address: String,
        upstream_address: String,
        egress_address: String,
        max_packet_size: usize,
        read_timeout: Duration,
        write_timeout: Duration,
        max_concurrent_requests: usize,
        rules: RuleTable,
    ) -> (r: Config)
        ensures
            r.bind_address@ == bind_address@,
            r.upstream_address@ == upstream_address@,
            r.egress_address@ == egress_address@,
            r.max_packet_size == max_packet_size,
            r.read_timeout == read_timeout,
            r.write_timeout == write_timeout,
            r.max_concurrent_requests == max_concurrent_requests,
            r.rules@ == rules@,
    {
        Config {
            bind_address,
            upstream_address,
            egress_address,
            max_packet_size,
            read_timeout,
            write_timeout,
            max_concurrent_requests,
            rules,
        }
    }
}

} // verus!
