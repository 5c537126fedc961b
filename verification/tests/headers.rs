//! Canonical header maps: sorting, replacement, and order independence.

use reqwest_mock::headers::Headers;

fn entries_of(h: &Headers) -> Vec<(String, String)> {
    h.entries().clone()
}

/// Just a basic example of one single header being serialized.
#[test]
fn serialize_headers() {
    let mut headers = Headers::new();
    headers.insert("user-agent", "testing");
    let expected = vec![("user-agent".to_string(), "testing".to_string())];
    assert_eq!(entries_of(&headers), expected);
}

/// Now a less trivial example checking whether the headers are being sorted,
/// which is important for things like hashing of requests, which has to be
/// deterministic regardless of the order headers were appended.
#[test]
fn serialize_headers_deterministic() {
    let mut headers1 = Headers::new();
    headers1.insert("user-agent", "testing");
    headers1.insert("content-type", "image/png");
    let mut headers2 = Headers::new();
    headers2.insert("content-type", "image/png");
    headers2.insert("user-agent", "testing");

    assert_eq!(entries_of(&headers1), entries_of(&headers2));
    assert!(headers1.same_entries(&headers2));
}

#[test]
fn headers_are_sorted_by_name() {
    let mut headers = Headers::new();
    headers.insert("b-second", "2");
    headers.insert("a-first", "1");
    headers.insert("c-third", "3");
    let expected = vec![
        ("a-first".to_string(), "1".to_string()),
        ("b-second".to_string(), "2".to_string()),
        ("c-third".to_string(), "3".to_string()),
    ];
    assert_eq!(entries_of(&headers), expected);
}

#[test]
fn inserting_same_name_replaces_value() {
    let mut headers = Headers::new();
    headers.insert("user-agent", "one");
    headers.insert("user-agent", "two");
    assert_eq!(headers.len(), 1);
    let expected = vec![("user-agent".to_string(), "two".to_string())];
    assert_eq!(entries_of(&headers), expected);
}

/// Header names are case-insensitive: ASCII letters fold to lowercase, so
/// differently-cased spellings are one header.
#[test]
fn header_names_fold_ascii_case() {
    let mut headers = Headers::new();
    headers.insert("User-Agent", "one");
    headers.insert("USER-AGENT", "two");
    assert_eq!(headers.len(), 1);
    let expected = vec![("user-agent".to_string(), "two".to_string())];
    assert_eq!(entries_of(&headers), expected);
}

#[test]
fn same_entries_detects_differences() {
    let mut h1 = Headers::new();
    h1.insert("a", "1");
    let mut h2 = Headers::new();
    h2.insert("a", "2");
    assert!(!h1.same_entries(&h2));
    let h3 = Headers::new();
    assert!(!h1.same_entries(&h3));
}
