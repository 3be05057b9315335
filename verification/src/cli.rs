//! Command-line settings shared by the servers.
use vstd::prelude::*;

verus! {

/// The port on which a server listens when none is given.
pub const DEFAULT_PORT: u16 = 8080;

/// A server's command-line settings.
pub struct Args {
    pub port: u16,
}

impl Default for Args {
    fn default() -> (res: Self)
        ensures
            res.port == DEFAULT_PORT,
    {
        Args { port: DEFAULT_PORT }
    }
}

} // verus!
