//! The stub store and matcher.

use reqwest_mock::error::Error;
use reqwest_mock::headers::Headers;
use reqwest_mock::request::Request;
use reqwest_mock::stub::{
    RegisterStubError, StubClient, StubDefault, StubKey, StubOutcome, StubResponse, StubSettings,
    StubStrictness,
};

fn settings(default: StubDefault, strictness: StubStrictness) -> StubSettings {
    StubSettings { default, strictness }
}

fn canned(body: &[u8]) -> StubResponse {
    StubResponse { status: 200, body: Some(body.to_vec()), headers: Headers::new() }
}

fn method_url_key(method: &str, url: &str) -> StubKey {
    StubKey {
        url: url.to_string(),
        method: Some(method.to_string()),
        body: None,
        headers: None,
    }
}

/// Stub strictness at registration: a body under `MethodUrl` is not
/// applicable and fails; under `BodyMethodUrl` it is required and succeeds,
/// and a request with a different body misses the stub.
#[test]
fn strictness_governs_registration_and_matching() {
    // A body set under MethodUrl strictness fails registration.
    let mut client = StubClient::new(settings(StubDefault::Error, StubStrictness::MethodUrl));
    let mut key = method_url_key("GET", "http://example.com/mocking");
    key.body = Some(b"42".to_vec());
    match client.register_stub(key, canned(b"Mocking is fun!")) {
        Err(RegisterStubError::UnescessaryField(f)) => assert_eq!(f.field_name, "body"),
        other => panic!("expected the not-applicable-field error, got {:?}", other),
    }

    // Under BodyMethodUrl the same pattern succeeds.
    let mut client = StubClient::new(settings(StubDefault::Error, StubStrictness::BodyMethodUrl));
    let mut key = method_url_key("GET", "http://example.com/mocking");
    key.body = Some(b"42".to_vec());
    client.register_stub(key, canned(b"Mocking is fun!")).unwrap();

    // The matching request hits the stub.
    let mut request = Request::new("GET", "http://example.com/mocking");
    request.set_body(b"42".to_vec());
    match client.execute(&request).unwrap() {
        StubOutcome::Reply(resp) => {
            assert_eq!(resp.body_to_utf8().unwrap(), "Mocking is fun!");
        }
        other => panic!("expected the canned reply, got {:?}", other),
    }

    // A request with a different body misses it.
    let mut request = Request::new("GET", "http://example.com/mocking");
    request.set_body(b"43".to_vec());
    match client.execute(&request) {
        Err(Error::UnmatchedStub(url)) => assert_eq!(url, "http://example.com/mocking"),
        other => panic!("expected the unmatched-stub error, got {:?}", other),
    }
}

/// A field the strictness requires must be present.
#[test]
fn missing_required_field_fails_registration() {
    let mut client = StubClient::new(settings(StubDefault::Error, StubStrictness::MethodUrl));
    let key = StubKey {
        url: "http://example.com".to_string(),
        method: None,
        body: None,
        headers: None,
    };
    match client.register_stub(key, canned(b"x")) {
        Err(RegisterStubError::MissingField(f)) => {
            assert_eq!(f.field_name, "method");
            assert_eq!(f.strictness, "MethodUrl");
        }
        other => panic!("expected the missing-field error, got {:?}", other),
    }

    // Url strictness refuses a method.
    let mut client = StubClient::new(settings(StubDefault::Error, StubStrictness::Url));
    match client.register_stub(method_url_key("GET", "http://example.com"), canned(b"x")) {
        Err(RegisterStubError::UnescessaryField(f)) => assert_eq!(f.field_name, "method"),
        other => panic!("expected the not-applicable-field error, got {:?}", other),
    }
}

/// The unmatched defaults: live call, abort, or a failure naming the URL.
#[test]
fn unmatched_defaults() {
    let request = Request::new("GET", "http://nowhere.example");

    let perform = StubClient::new(settings(StubDefault::PerformRequest, StubStrictness::MethodUrl));
    assert!(matches!(perform.execute(&request).unwrap(), StubOutcome::LiveRequired));

    let aborting = StubClient::new(settings(StubDefault::Panic, StubStrictness::MethodUrl));
    assert!(matches!(aborting.execute(&request).unwrap(), StubOutcome::Abort));

    let failing = StubClient::new(settings(StubDefault::Error, StubStrictness::MethodUrl));
    match failing.execute(&request) {
        Err(Error::UnmatchedStub(url)) => assert_eq!(url, "http://nowhere.example"),
        other => panic!("expected the unmatched-stub error, got {:?}", other),
    }
}

/// Under `Full` strictness the stub key ignores header insertion order.
#[test]
fn full_strictness_ignores_header_order() {
    let mut client = StubClient::new(settings(StubDefault::Error, StubStrictness::Full));

    let mut pattern_headers = Headers::new();
    pattern_headers.insert("user-agent", "testing");
    pattern_headers.insert("content-type", "image/png");
    let key = StubKey {
        url: "http://example.com".to_string(),
        method: Some("GET".to_string()),
        body: Some(b"42".to_vec()),
        headers: Some(pattern_headers),
    };
    client.register_stub(key, canned(b"hit")).unwrap();

    // The same headers inserted in the other order still match.
    let mut request = Request::new("GET", "http://example.com");
    request.insert_header("content-type", "image/png");
    request.insert_header("user-agent", "testing");
    request.set_body(b"42".to_vec());
    match client.execute(&request).unwrap() {
        StubOutcome::Reply(resp) => assert_eq!(resp.body, b"hit".to_vec()),
        other => panic!("expected the canned reply, got {:?}", other),
    }
}

/// Registering the same pattern again replaces its response.
#[test]
fn registration_replaces_same_key() {
    let mut client = StubClient::new(settings(StubDefault::Error, StubStrictness::MethodUrl));
    client
        .register_stub(method_url_key("GET", "http://example.com"), canned(b"one"))
        .unwrap();
    client
        .register_stub(method_url_key("GET", "http://example.com"), canned(b"two"))
        .unwrap();

    let request = Request::new("GET", "http://example.com");
    match client.execute(&request).unwrap() {
        StubOutcome::Reply(resp) => assert_eq!(resp.body, b"two".to_vec()),
        other => panic!("expected the canned reply, got {:?}", other),
    }
}

/// A stub without a body answers with an empty body, verbatim.
#[test]
fn stub_without_body_is_empty() {
    let mut client = StubClient::new(settings(StubDefault::Error, StubStrictness::Url));
    let key = StubKey {
        url: "http://example.com".to_string(),
        method: None,
        body: None,
        headers: None,
    };
    let value = StubResponse { status: 204, body: None, headers: Headers::new() };
    client.register_stub(key, value).unwrap();

    // Under Url strictness any method matches.
    let request = Request::new("POST", "http://example.com");
    match client.execute(&request).unwrap() {
        StubOutcome::Reply(resp) => {
            assert_eq!(resp.status, 204);
            assert_eq!(resp.body, Vec::<u8>::new());
            assert_eq!(resp.url, "http://example.com");
        }
        other => panic!("expected the canned reply, got {:?}", other),
    }
}

/// The default settings fail on unmatched requests and match fully.
#[test]
fn default_settings() {
    let s = StubSettings::default();
    assert_eq!(s.default, StubDefault::Error);
    assert_eq!(s.strictness, StubStrictness::Full);
}
