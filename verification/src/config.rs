use vstd::prelude::*;

verus! {

/// Specifies how a client handles redirects.
#[derive(Clone, Debug, PartialEq, Eq)]
pub enum RedirectPolicy {
    /// Follow redirects, up to the given number of hops.
    Limit(usize),
    /// Do not follow redirects.
    NoFollow,
}

impl Default for RedirectPolicy {
    /// Follows up to 10 redirects.
    fn default() -> (r: Self)
        ensures
            r == RedirectPolicy::Limit(10usize),
    {
        RedirectPolicy::Limit(10)
    }
}

/// Configures some parameters for a client instance.
///
/// The engine itself never reads these; they are carried to the live
/// transport, which applies them to the actual network call.
#[derive(Clone, Debug, PartialEq, Eq)]
pub struct ClientConfig {
    /// Enable auto gzip decompression based on the content-encoding
    /// response header.  Default is enabled.
    pub gzip: bool,
    /// The redirect policy for this client.
    pub redirect: RedirectPolicy,
    /// Enable or disable automatic setting of the referer header.
    /// Default is enabled.
    pub referer: bool,
    /// Timeout for the read and write operations of a client, in
    /// milliseconds; `None` means no timeout.
    pub timeout_ms: Option<u64>,
}

impl ClientConfig {
    /// The configuration every client starts from.
    pub open spec fn spec_default() -> ClientConfig {
        ClientConfig {
            gzip: true,
            redirect: RedirectPolicy::Limit(10usize),
            referer: true,
            timeout_ms: None,
        }
    }

    /// Create a configuration with the default parameters.
    pub fn new() -> (r: Self)
        ensures
            r == ClientConfig::spec_default(),
    {
        ClientConfig {
            gzip: true,
            redirect: RedirectPolicy::Limit(10),
            referer: true,
            timeout_ms: None,
        }
    }
}

impl Default for ClientConfig {
    fn default() -> (r: Self)
        ensures
            r == ClientConfig::spec_default(),
    {
        ClientConfig::new()
    }
}

} // verus!
