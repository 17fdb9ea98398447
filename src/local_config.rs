use vstd::prelude::*;

verus! {

/// Settings for a server reachable from this machine only.
pub struct Config {
    pub host: String,
    pub port: u16,
    pub max_connections: usize,
    pub max_memory: usize,
}

impl Config {
    /// Listens on the loopback address at port 6379, for up to 100
    /// clients, with a 1 GiB budget.
    pub fn new() -> (r: Self)
        ensures
            r.host@ == "127.0.0.1"@,
            r.port == 6379,
            r.max_connections == 100,
            r.max_memory == 1024 * 1024 * 1024,
    {
        Config {
            host: String::from_str("127.0.0.1"),
            port: 6379,
            max_connections: 100,
            max_memory: 1024 * 1024 * 1024,
        }
    }
}

} // verus!
