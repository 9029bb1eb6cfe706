use vstd::prelude::*;

verus! {

/// The command-line options; every one may be left out.
pub struct Args {
    /// Hostname of the mqtt broker
    pub hostname: Option<String>,
    /// Port of the broker
    pub port: Option<u16>,
    /// ClientID of the connection
    pub client_id: Option<String>,
    /// Topics to subscribe to
    pub topic: Option<String>,
    /// Username of the broker
    pub user: Option<String>,
    /// Password of the broker
    pub password: Option<String>,
    /// Selected profile from config.toml
    pub profile: Option<String>,
}

} // verus!
