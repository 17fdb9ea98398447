use vstd::prelude::*;

verus! {

/// Server settings: where to listen, how many clients to serve at once,
/// and a memory budget that is accepted but not enforced.
pub struct Config {
    pub host: String,
    pub port: u16,
    pub max_connections: usize,
    pub max_memory: usize,
}

impl Config {
    /// Listens on every interface at port 6379, for up to 1000 clients,
    /// with a 1 GiB budget.
    pub fn new() -> (r: Self)
        ensures
            r.host@ == "0.0.0.0"@,
            r.port == 6379,
            r.max_connections == 1000,
            r.max_memory == 1024 * 1024 * 1024,
    {
        Config {
            host: String::from_str("0.0.0.0"),
            port: 6379,
            max_connections: 1000,
            max_memory: 1024 * 1024 * 1024,
        }
    }
}

} // verus!
