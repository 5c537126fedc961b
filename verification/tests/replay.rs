//! The replay/record engine, driven against the in-memory store.

use reqwest_mock::codec::{encode_entry, FORMAT_VERSION};
use reqwest_mock::error::Error;
use reqwest_mock::fingerprint::fingerprint;
use reqwest_mock::headers::Headers;
use reqwest_mock::replay::{Attempt, Builder, RecordMode, RecordingTarget, ReplayClient};
use reqwest_mock::request::Request;
use reqwest_mock::response::Response;
use reqwest_mock::store::Store;

fn get_request(url: &str, body: &[u8]) -> Request {
    let mut r = Request::new("GET", url);
    r.set_body(body.to_vec());
    r
}

fn live_response(url: &str, body: &str) -> Response {
    Response {
        url: url.to_string(),
        status: 200,
        headers: Headers::new(),
        body: body.as_bytes().to_vec(),
    }
}

/// One engine step: replay when possible, otherwise perform `live` and
/// record its outcome.  Counts the live calls made.
fn execute(
    client: &mut ReplayClient,
    store: &mut Store,
    request: &Request,
    live: &Response,
    live_calls: &mut u32,
) -> Result<Response, Error> {
    match client.begin(store, request)? {
        Attempt::Replayed(response) => Ok(response),
        Attempt::NeedsLive => {
            *live_calls += 1;
            client.record(store, request, live);
            Ok(live.clone())
        }
    }
}

/// Idempotence: executing the same request twice returns byte-identical
/// responses and performs exactly one live call across both invocations.
#[test]
fn same_request_twice_is_one_live_call() {
    let mut client =
        ReplayClient::new(RecordingTarget::File("cassette.json".to_string()), RecordMode::NewEpisodes);
    let mut store = Store::new();
    let mut live_calls = 0u32;

    let request = get_request("http://x/y", b"42");
    let live = live_response("http://x/y", "43\nGET /y\n{headers}");

    let first = execute(&mut client, &mut store, &request, &live, &mut live_calls).unwrap();
    let second = execute(&mut client, &mut store, &request, &live, &mut live_calls).unwrap();

    assert_eq!(live_calls, 1);
    assert_eq!(first, second);
    assert_eq!(first.body, second.body);
}

/// Directory isolation: two distinct requests produce two separate files,
/// each independently replayable.
#[test]
fn directory_targets_isolate_requests() {
    let mut client =
        ReplayClient::new(RecordingTarget::Dir("replays".to_string()), RecordMode::NewEpisodes);
    let mut store = Store::new();
    let mut live_calls = 0u32;

    let request1 = get_request("http://x/one", b"1");
    let request2 = get_request("http://x/two", b"2");
    let live1 = live_response("http://x/one", "answer one");
    let live2 = live_response("http://x/two", "answer two");

    let path1 = client.replay_file_path(&request1);
    let path2 = client.replay_file_path(&request2);
    assert_ne!(path1, path2);
    assert!(path1.starts_with("replays/"));
    assert!(path1.ends_with(".json"));

    execute(&mut client, &mut store, &request1, &live1, &mut live_calls).unwrap();
    execute(&mut client, &mut store, &request2, &live2, &mut live_calls).unwrap();
    assert_eq!(live_calls, 2);
    assert_eq!(store.len(), 2);

    // Each replays its own response, with no further live call.
    let r1 = execute(&mut client, &mut store, &request1, &live1, &mut live_calls).unwrap();
    let r2 = execute(&mut client, &mut store, &request2, &live2, &mut live_calls).unwrap();
    assert_eq!(live_calls, 2);
    assert_eq!(r1.body, b"answer one".to_vec());
    assert_eq!(r2.body, b"answer two".to_vec());
}

/// Version invalidation: a document of the previous format version is never
/// replayed; the next execution performs a live call and rewrites the file
/// with the current version.
#[test]
fn stale_version_is_recorded_again() {
    let mut client =
        ReplayClient::new(RecordingTarget::File("cassette.json".to_string()), RecordMode::NewEpisodes);
    let mut store = Store::new();
    let mut live_calls = 0u32;

    let request = get_request("http://x/y", b"42");
    let stale = live_response("http://x/y", "stale answer");
    let live = live_response("http://x/y", "fresh answer");

    // A document recorded with the previous format version.
    let path = client.replay_file_path(&request);
    store.write(path, encode_entry(&request, &stale, FORMAT_VERSION - 1));

    let first = execute(&mut client, &mut store, &request, &live, &mut live_calls).unwrap();
    assert_eq!(live_calls, 1, "a stale document must not be replayed");
    assert_eq!(first.body, b"fresh answer".to_vec());

    // The rewrite used the current version: the next execution replays.
    let second = execute(&mut client, &mut store, &request, &live, &mut live_calls).unwrap();
    assert_eq!(live_calls, 1);
    assert_eq!(second.body, b"fresh answer".to_vec());
}

/// Replay-only enforcement: against an empty directory target the call
/// fails with the policy violation and no live call is made.
#[test]
fn only_replay_fails_on_empty_store() {
    let mut client =
        ReplayClient::new(RecordingTarget::Dir("replays".to_string()), RecordMode::OnlyReplay);
    let store = Store::new();

    let request = get_request("http://x/y", b"42");
    match client.begin(&store, &request) {
        Err(Error::ReplayPolicyViolation) => {}
        other => panic!("expected the policy violation, got {:?}", other),
    }
}

/// Force-record: after force-record-next the next execution performs a live
/// call although a matching document exists; the call after that replays.
#[test]
fn force_record_is_one_shot() {
    let mut client =
        ReplayClient::new(RecordingTarget::File("cassette.json".to_string()), RecordMode::NewEpisodes);
    let mut store = Store::new();
    let mut live_calls = 0u32;

    let request = get_request("http://x/y", b"42");
    let live = live_response("http://x/y", "the answer");

    execute(&mut client, &mut store, &request, &live, &mut live_calls).unwrap();
    assert_eq!(live_calls, 1);

    client.force_record_next();
    execute(&mut client, &mut store, &request, &live, &mut live_calls).unwrap();
    assert_eq!(live_calls, 2, "the forced execution must call live again");

    execute(&mut client, &mut store, &request, &live, &mut live_calls).unwrap();
    assert_eq!(live_calls, 2, "the flag is one-shot: the next execution replays");
}

/// The concrete scenario: `{GET, http://x/y, body="42"}` recorded once
/// yields the recorded body again on replay with zero further live calls;
/// changing the body changes the fingerprint, so under `NewEpisodes` a fresh
/// live call happens and under `OnlyReplay` the call fails.
#[test]
fn concrete_record_replay_scenario() {
    let mut client =
        ReplayClient::new(RecordingTarget::Dir("replays".to_string()), RecordMode::NewEpisodes);
    let mut store = Store::new();
    let mut live_calls = 0u32;

    let request = get_request("http://x/y", b"42");
    let live = live_response("http://x/y", "43\nGET /y\n{headers}");

    let first = execute(&mut client, &mut store, &request, &live, &mut live_calls).unwrap();
    assert_eq!(live_calls, 1);
    assert_eq!(first.body_to_utf8().unwrap(), "43\nGET /y\n{headers}");

    let replayed = execute(&mut client, &mut store, &request, &live, &mut live_calls).unwrap();
    assert_eq!(live_calls, 1);
    assert_eq!(replayed.body_to_utf8().unwrap(), "43\nGET /y\n{headers}");

    // A different body is a different fingerprint: a fresh live call.
    let changed = get_request("http://x/y", b"43");
    assert_ne!(fingerprint(&request), fingerprint(&changed));
    let fresh_live = live_response("http://x/y", "44\nGET /y\n{headers}");
    let fresh = execute(&mut client, &mut store, &changed, &fresh_live, &mut live_calls).unwrap();
    assert_eq!(live_calls, 2);
    assert_eq!(fresh.body_to_utf8().unwrap(), "44\nGET /y\n{headers}");

    // Under OnlyReplay the changed request fails instead.
    let mut strict =
        ReplayClient::new(RecordingTarget::Dir("replays".to_string()), RecordMode::OnlyReplay);
    let mut empty = Store::new();
    let other = get_request("http://x/y", b"44");
    match strict.begin(&mut empty, &other) {
        Err(Error::ReplayPolicyViolation) => {}
        other => panic!("expected the policy violation, got {:?}", other),
    }
}

/// Fingerprints ignore header insertion order but depend on the content.
#[test]
fn fingerprint_ignores_insertion_order() {
    let mut r1 = Request::new("GET", "http://x/y");
    r1.insert_header("user-agent", "testing");
    r1.insert_header("content-type", "image/png");
    let mut r2 = Request::new("GET", "http://x/y");
    r2.insert_header("content-type", "image/png");
    r2.insert_header("user-agent", "testing");

    assert_eq!(fingerprint(&r1), fingerprint(&r2));

    let mut r3 = Request::new("GET", "http://x/y");
    r3.insert_header("user-agent", "testing");
    r3.insert_header("content-type", "text/plain");
    assert_ne!(fingerprint(&r1), fingerprint(&r3));

    // Header names are matched case-insensitively.
    let mut r4 = Request::new("GET", "http://x/y");
    r4.insert_header("User-Agent", "testing");
    r4.insert_header("Content-Type", "image/png");
    assert_eq!(fingerprint(&r1), fingerprint(&r4));
}

/// A stored file that is JSON of another layout or version is a miss: the
/// engine records afresh instead of failing.
#[test]
fn foreign_json_document_is_a_miss() {
    let mut client =
        ReplayClient::new(RecordingTarget::File("cassette.json".to_string()), RecordMode::NewEpisodes);
    let mut store = Store::new();
    let mut live_calls = 0u32;

    let request = get_request("http://x/y", b"42");
    let live = live_response("http://x/y", "fresh answer");

    // A version-2 document written with whitespace and another member order.
    let path = client.replay_file_path(&request);
    store.write(
        path,
        b"{\n  \"request\": {},\n  \"format_version\": 2\n}".to_vec(),
    );

    let first = execute(&mut client, &mut store, &request, &live, &mut live_calls).unwrap();
    assert_eq!(live_calls, 1, "a foreign document must be a miss, not an error");
    assert_eq!(first.body, b"fresh answer".to_vec());
}

/// A file target always uses its own path.
#[test]
fn file_target_path_is_the_file() {
    let client =
        ReplayClient::new(RecordingTarget::file("cassette.json".to_string()), RecordMode::NewEpisodes);
    let request = get_request("http://x/y", b"42");
    assert_eq!(client.replay_file_path(&request), "cassette.json");
}

/// Corrupted stored bytes surface as a serialization error.
#[test]
fn corrupted_document_is_an_error() {
    let mut client =
        ReplayClient::new(RecordingTarget::File("cassette.json".to_string()), RecordMode::NewEpisodes);
    let mut store = Store::new();
    let request = get_request("http://x/y", b"42");
    let path = client.replay_file_path(&request);
    store.write(path, b"{ not a document }".to_vec());
    match client.begin(&store, &request) {
        Err(Error::Serialization) => {}
        other => panic!("expected a serialization error, got {:?}", other),
    }
}

/// A file target holds exactly one interaction: recording a differing
/// request overwrites it, and the earlier request misses afterwards.
#[test]
fn file_target_overwrites_on_differing_request() {
    let mut client =
        ReplayClient::new(RecordingTarget::File("cassette.json".to_string()), RecordMode::NewEpisodes);
    let mut store = Store::new();
    let mut live_calls = 0u32;

    let request1 = get_request("http://x/one", b"1");
    let request2 = get_request("http://x/two", b"2");
    let live1 = live_response("http://x/one", "answer one");
    let live2 = live_response("http://x/two", "answer two");

    execute(&mut client, &mut store, &request1, &live1, &mut live_calls).unwrap();
    execute(&mut client, &mut store, &request2, &live2, &mut live_calls).unwrap();
    assert_eq!(live_calls, 2);
    assert_eq!(store.len(), 1, "a file target holds one interaction");

    // The first request was overwritten: executing it records again.
    execute(&mut client, &mut store, &request1, &live1, &mut live_calls).unwrap();
    assert_eq!(live_calls, 3);
}

/// The builder: a target is required, the mode defaults to `NewEpisodes`.
#[test]
fn builder_requires_a_target() {
    match Builder::new().build() {
        Err(Error::Msg(m)) => assert_eq!(m, "Recording target not specified."),
        Err(other) => panic!("expected the missing-target error, got {:?}", other),
        Ok(_) => panic!("a build without a target must fail"),
    }

    let client = ReplayClient::builder()
        .target_file("cassette.json".to_string())
        .build()
        .unwrap();
    assert!(matches!(client.record_mode, RecordMode::NewEpisodes));
    assert!(matches!(&client.target, RecordingTarget::File(f) if f == "cassette.json"));

    let strict = Builder::new()
        .target(RecordingTarget::dir("replays".to_string()))
        .record_mode(RecordMode::OnlyReplay)
        .build()
        .unwrap();
    assert!(matches!(strict.record_mode, RecordMode::OnlyReplay));
}
