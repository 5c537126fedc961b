//! The stored-document codec: exact bytes, round trips, version handling.

use reqwest_mock::codec::{decode_doc, doc_to_entry, encode_entry, DecodeOutcome, FORMAT_VERSION};
use reqwest_mock::headers::Headers;
use reqwest_mock::request::Request;
use reqwest_mock::response::Response;

fn sample_response(url: &str, body: &[u8]) -> Response {
    Response {
        url: url.to_string(),
        status: 200,
        headers: Headers::new(),
        body: body.to_vec(),
    }
}

fn round_trip(request: &Request, response: &Response) -> (Request, Response) {
    let bytes = encode_entry(request, response, FORMAT_VERSION);
    match decode_doc(&bytes) {
        DecodeOutcome::Valid(doc) => {
            let entry = doc_to_entry(doc).expect("the stored base64 text must decode");
            assert_eq!(entry.format_version, FORMAT_VERSION);
            (entry.request, entry.response)
        }
        other => panic!("a freshly written document must decode, got {:?}", other),
    }
}

/// The request half of a document survives the round trip unchanged.
#[test]
fn request_serde() {
    let mut request = Request::new("GET", "https://example.com");
    request.insert_header("content-length", "2000");
    request.insert_header("user-agent", "Testing Code");
    request.set_body(vec![2, 4, 11, 32, 99, 1, 4, 5]);

    let response = sample_response("https://example.com", b"ok");
    let (request2, _) = round_trip(&request, &response);
    assert_eq!(request, request2);
}

/// The response half of a document survives the round trip unchanged.
#[test]
fn response_serde() {
    let mut headers = Headers::new();
    headers.insert("content-length", "2000");
    headers.insert("user-agent", "Testing Code");
    let response = Response {
        url: "http://example.com/index.html".to_string(),
        status: 200,
        headers,
        body: vec![2, 4, 8, 16, 32, 64, 42],
    };

    let request = Request::new("GET", "http://example.com/index.html");
    let (_, response2) = round_trip(&request, &response);
    assert_eq!(response, response2);
}

/// The exact canonical document for a small entry, including the base64
/// response body.
#[test]
fn exact_document_bytes() {
    let mut request = Request::new("GET", "http://x/y");
    request.set_body(b"42".to_vec());
    let response = sample_response("http://x/y", b"42");

    let bytes = encode_entry(&request, &response, FORMAT_VERSION);
    let text = String::from_utf8(bytes).expect("the document is UTF-8");
    assert_eq!(
        text,
        "{\"format_version\":3,\
         \"request\":{\"url\":\"http://x/y\",\"method\":\"GET\",\"headers\":{},\"body\":[52,50]},\
         \"response\":{\"url\":\"http://x/y\",\"status\":200,\"headers\":{},\"body\":\"NDI=\"}}"
    );
}

/// A document of another format version is a version mismatch, not an error
/// and not a decode.
#[test]
fn old_version_is_a_mismatch() {
    let request = Request::new("GET", "http://x/y");
    let response = sample_response("http://x/y", b"old");
    let bytes = encode_entry(&request, &response, FORMAT_VERSION - 1);
    assert_eq!(decode_doc(&bytes), DecodeOutcome::VersionMismatch);
}

/// Bytes the writer cannot have produced are malformed.
#[test]
fn garbage_is_malformed() {
    assert_eq!(decode_doc(&b"not a document".to_vec()), DecodeOutcome::Malformed);
    assert_eq!(decode_doc(&Vec::new()), DecodeOutcome::Malformed);
    // A version field alone is not a document either.
    assert_eq!(decode_doc(&b"{\"format_version\":3".to_vec()), DecodeOutcome::Malformed);
}

/// Well-formed JSON without the current version is a miss, whatever its
/// layout: whitespace, member order, a missing or non-integer version, or a
/// non-object value never surface as errors.
#[test]
fn lenient_version_probe_misses() {
    let cases: Vec<&[u8]> = vec![
        b"{ \"format_version\": 2 }",
        b"{\n  \"other\": [1, true, null],\n  \"format_version\": 2\n}",
        b"{}",
        b"{\"format_version\": \"2\"}",
        b"{\"format_version\": 3.5}",
        b"{\"format_version\": -3}",
        b"[1, 2, 3]",
        b"null",
        b"\"just text\"",
    ];
    for text in cases {
        assert_eq!(
            decode_doc(&text.to_vec()),
            DecodeOutcome::VersionMismatch,
            "expected a miss for {:?}",
            String::from_utf8(text.to_vec()),
        );
    }
    // A canonical version prefix decides by itself, whatever follows.
    assert_eq!(
        decode_doc(&b"{\"format_version\":2 whatever".to_vec()),
        DecodeOutcome::VersionMismatch,
    );
}

/// A document claiming the current version must be canonical, and bytes
/// that are not JSON at all are an error.
#[test]
fn current_version_demands_canonical_layout() {
    assert_eq!(
        decode_doc(&b"{ \"format_version\": 3 }".to_vec()),
        DecodeOutcome::Malformed,
    );
    assert_eq!(
        decode_doc(&b"{\"other\": 1, \"format_version\": 3}".to_vec()),
        DecodeOutcome::Malformed,
    );
    assert_eq!(
        decode_doc(&b"{\"format_version\" 2}".to_vec()),
        DecodeOutcome::Malformed,
    );
}

/// Escaped characters in strings and non-ASCII text survive the round trip.
#[test]
fn escapes_round_trip() {
    let mut request = Request::new("GET", "http://x/\u{e9}"); // a non-ASCII URL
    request.insert_header("x-quote", "a\"b\\c");
    request.insert_header("x-ctl", "line\nbreak\ttab");
    let response = sample_response("http://x/\u{e9}", b"\x00\x01\xff binary");

    let (request2, response2) = round_trip(&request, &response);
    assert_eq!(request, request2);
    assert_eq!(response, response2);
}

/// A request without a body is stored as `null` and comes back as `None`.
#[test]
fn bodyless_request_round_trip() {
    let request = Request::new("HEAD", "http://x/");
    let response = sample_response("http://x/", b"");
    let (request2, _) = round_trip(&request, &response);
    assert_eq!(request2.body, None);
    assert_eq!(request, request2);
}
