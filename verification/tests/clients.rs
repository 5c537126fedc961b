//! The plain client types: configuration carriers and the generic wrapper.

use reqwest_mock::config::{ClientConfig, RedirectPolicy};
use reqwest_mock::direct::DirectClient;
use reqwest_mock::generic::{GenericClient, InnerClient};
use reqwest_mock::replay::{RecordMode, RecordingTarget};
use reqwest_mock::response::Response;
use reqwest_mock::error::Error;
use reqwest_mock::headers::Headers;

#[test]
fn default_config() {
    let config = ClientConfig::new();
    assert!(config.gzip);
    assert!(config.referer);
    assert_eq!(config.timeout_ms, None);
    assert!(matches!(config.redirect, RedirectPolicy::Limit(10)));
    assert_eq!(config, ClientConfig::default());
}

#[test]
fn direct_client_carries_config() {
    let mut client = DirectClient::new();
    assert_eq!(*client.config(), ClientConfig::default());
    let mut config = ClientConfig::new();
    config.timeout_ms = Some(1500);
    config.redirect = RedirectPolicy::NoFollow;
    client.set_config(config.clone());
    assert_eq!(*client.config(), config);
}

#[test]
fn generic_client_kinds() {
    let direct = GenericClient::direct();
    assert!(matches!(direct.inner, InnerClient::Direct(_)));
    assert_eq!(*direct.config(), ClientConfig::default());

    let file = GenericClient::replay_file("one.json".to_string());
    match &file.inner {
        InnerClient::Replay(c) => {
            assert!(matches!(&c.target, RecordingTarget::File(f) if f == "one.json"));
            assert!(matches!(c.record_mode, RecordMode::NewEpisodes));
        }
        _ => panic!("expected a replay client"),
    }

    let mut dir = GenericClient::replay_dir("replays".to_string());
    match &dir.inner {
        InnerClient::Replay(c) => {
            assert!(matches!(&c.target, RecordingTarget::Dir(d) if d == "replays"));
        }
        _ => panic!("expected a replay client"),
    }
    let mut config = ClientConfig::new();
    config.gzip = false;
    dir.set_config(config.clone());
    assert_eq!(*dir.config(), config);
}

#[test]
fn error_kind_names() {
    assert_eq!(Error::ReplayPolicyViolation.kind_name(), "replay policy violation");
    assert_eq!(Error::Serialization.kind_name(), "serialization");
    assert_eq!(Error::UnmatchedStub("http://x/".to_string()).kind_name(), "unmatched stub");
}

#[test]
fn body_to_utf8_decodes_or_fails() {
    let ok = Response {
        url: "http://x/".to_string(),
        status: 200,
        headers: Headers::new(),
        body: "caf\u{e9}".as_bytes().to_vec(),
    };
    assert_eq!(ok.body_to_utf8().unwrap(), "caf\u{e9}");

    let bad = Response {
        url: "http://x/".to_string(),
        status: 200,
        headers: Headers::new(),
        body: vec![0xff, 0xfe],
    };
    assert_eq!(bad.body_to_utf8(), Err(Error::InvalidUtf8));
}
