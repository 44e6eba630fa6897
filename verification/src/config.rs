//! Startup configuration.
//!
//! The program needs two values from its environment: a private signing key
//! and a node endpoint address. Both are required; the absence of either is
//! fatal at startup. Reading the environment is I/O and happens outside the
//! library; the decision of whether what was read suffices is made here.

use vstd::prelude::*;

verus! {

/// The configuration the program runs with.
#[derive(Debug)]
pub struct Config {
    /// The private signing key, as read from the environment.
    pub private_key: String,
    /// The node endpoint address to connect to.
    pub rpc: String,
}

/// Why a configuration could not be built.
#[derive(Clone, Copy, Debug, PartialEq, Eq, Structural)]
pub enum ConfigError {
    /// No private signing key was given.
    MissingPrivateKey,
    /// No node endpoint address was given.
    MissingRpc,
}

impl Config {
    /// Builds the configuration from what the environment gave, if anything.
    /// Fails exactly when a required value is absent, naming the private key
    /// first where both are.
    pub fn new(private_key: Option<String>, rpc: Option<String>) -> (r: Result<
        Config,
        ConfigError,
    >)
        ensures
            private_key is None ==> r == Err::<Config, ConfigError>(
                ConfigError::MissingPrivateKey,
            ),
            private_key is Some && rpc is None ==> r == Err::<Config, ConfigError>(
                ConfigError::MissingRpc,
            ),
            private_key is Some && rpc is Some ==> (r matches Ok(c) && c.private_key
                == private_key->0 && c.rpc == rpc->0),
    {
        match (private_key, rpc) {
            (None, _) => Err(ConfigError::MissingPrivateKey),
            (Some(_), None) => Err(ConfigError::MissingRpc),
            (Some(private_key), Some(rpc)) => Ok(Config { private_key, rpc }),
        }
    }
}

} // verus!
