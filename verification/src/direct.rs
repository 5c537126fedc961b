use vstd::prelude::*;
use crate::config::ClientConfig;

verus! {

/// A regular client performing no mocking at all: it carries the
/// configuration a live transport applies to every call it performs.  The
/// network call itself is the live transport's part.
pub struct DirectClient {
    /// The configuration handed to the live transport.
    pub config: ClientConfig,
}

impl DirectClient {
    /// A client with the default configuration.
    pub fn new() -> (r: Self)
        ensures
            r.config == ClientConfig::spec_default(),
    {
        DirectClient { config: ClientConfig::new() }
    }

    /// The client's own configuration.
    pub fn config(&self) -> (r: &ClientConfig)
        ensures
            r == self.config,
    {
        &self.config
    }

    /// Replace the client's configuration.
    pub fn set_config(&mut self, config: ClientConfig)
        ensures
            final(self).config == config,
    {
        self.config = config;
    }
}

} // verus!
