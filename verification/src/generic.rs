use vstd::prelude::*;
use crate::config::ClientConfig;
use crate::direct::DirectClient;
use crate::replay::{RecordingTarget, RecordMode, ReplayClient};

verus! {

/// The client a `GenericClient` holds.
pub enum InnerClient {
    /// A direct client: every call is live.
    Direct(DirectClient),
    /// A replay client: calls are recorded and replayed.
    Replay(ReplayClient),
}

/// An interface over the different client kinds, for code that wants to
/// avoid being generic over a client type.
pub struct GenericClient {
    /// The client answering the calls.
    pub inner: InnerClient,
}

impl From<DirectClient> for GenericClient {
    fn from(c: DirectClient) -> (r: GenericClient)
        ensures
            r == (GenericClient { inner: InnerClient::Direct(c) }),
    {
        GenericClient { inner: InnerClient::Direct(c) }
    }
}

impl vstd::std_specs::convert::FromSpecImpl<DirectClient> for GenericClient {
    open spec fn obeys_from_spec() -> bool {
        true
    }

    open spec fn from_spec(c: DirectClient) -> GenericClient {
        GenericClient { inner: InnerClient::Direct(c) }
    }
}

impl From<ReplayClient> for GenericClient {
    fn from(c: ReplayClient) -> (r: GenericClient)
        ensures
            r == (GenericClient { inner: InnerClient::Replay(c) }),
    {
        GenericClient { inner: InnerClient::Replay(c) }
    }
}

impl vstd::std_specs::convert::FromSpecImpl<ReplayClient> for GenericClient {
    open spec fn obeys_from_spec() -> bool {
        true
    }

    open spec fn from_spec(c: ReplayClient) -> GenericClient {
        GenericClient { inner: InnerClient::Replay(c) }
    }
}

impl GenericClient {
    /// A generic client performing every call live.
    pub fn direct() -> (r: Self)
        ensures
            r.inner matches InnerClient::Direct(c) && c.config == ClientConfig::spec_default(),
    {
        GenericClient { inner: InnerClient::Direct(DirectClient::new()) }
    }

    /// A generic client recording one single request to one single replay
    /// file; a differing request overwrites the file.
    pub fn replay_file(replay_file: String) -> (r: Self)
        ensures
            r.inner matches InnerClient::Replay(c) && c.target == RecordingTarget::File(
                replay_file,
            ) && c.record_mode == RecordMode::NewEpisodes && c.config
                == ClientConfig::spec_default() && !c.force_record_next,
    {
        GenericClient {
            inner: InnerClient::Replay(
                ReplayClient::new(RecordingTarget::File(replay_file), RecordMode::NewEpisodes),
            ),
        }
    }

    /// A generic client recording multiple requests into a directory: each
    /// distinct request gets its own replay file.
    pub fn replay_dir(replay_dir: String) -> (r: Self)
        ensures
            r.inner matches InnerClient::Replay(c) && c.target == RecordingTarget::Dir(replay_dir)
                && c.record_mode == RecordMode::NewEpisodes && c.config
                == ClientConfig::spec_default() && !c.force_record_next,
    {
        GenericClient {
            inner: InnerClient::Replay(
                ReplayClient::new(RecordingTarget::Dir(replay_dir), RecordMode::NewEpisodes),
            ),
        }
    }

    /// The configuration of the client held inside.
    pub fn config(&self) -> (r: &ClientConfig)
        ensures
            r == match self.inner {
                InnerClient::Direct(c) => c.config,
                InnerClient::Replay(c) => c.config,
            },
    {
        match &self.inner {
            InnerClient::Direct(c) => c.config(),
            InnerClient::Replay(c) => c.config(),
        }
    }

    /// Replace the configuration of the client held inside.
    pub fn set_config(&mut self, config: ClientConfig)
        ensures
            match old(self).inner {
                InnerClient::Direct(c) => final(self).inner matches InnerClient::Direct(d)
                    && d.config == config,
                InnerClient::Replay(c) => final(self).inner matches InnerClient::Replay(d)
                    && d.config == config && d.target == c.target && d.record_mode == c.record_mode
                    && d.force_record_next == c.force_record_next,
            },
    {
        match &mut self.inner {
            InnerClient::Direct(c) => c.set_config(config),
            InnerClient::Replay(c) => c.set_config(config),
        }
    }
}

} // verus!
