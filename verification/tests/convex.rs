use oxvoid::convex::{api_url, decimal_string, endpoint_str, http_error, replace_all, ws_url, Endpoint};
use oxvoid::ConvexError;

#[test]
fn api_urls() {
    assert_eq!(api_url("https://x.convex.cloud", Endpoint::Query), "https://x.convex.cloud/api/query");
    assert_eq!(api_url("https://x.convex.cloud", Endpoint::Mutation), "https://x.convex.cloud/api/mutation");
    assert_eq!(api_url("http://localhost:3210", Endpoint::Action), "http://localhost:3210/api/action");
}

#[test]
fn endpoint_names() {
    assert_eq!(endpoint_str(Endpoint::Query), "query");
    assert_eq!(endpoint_str(Endpoint::Mutation), "mutation");
    assert_eq!(endpoint_str(Endpoint::Action), "action");
}

#[test]
fn ws_url_secure() {
    assert_eq!(ws_url("https://happy-otter-123.convex.cloud"), "wss://happy-otter-123.convex.cloud/ws");
}

#[test]
fn ws_url_plain() {
    assert_eq!(ws_url("http://localhost:3210"), "ws://localhost:3210/ws");
}

#[test]
fn ws_url_other_scheme_only_gains_suffix() {
    assert_eq!(ws_url("ftp://host"), "ftp://host/ws");
    assert_eq!(ws_url(""), "/ws");
}

#[test]
fn ws_url_replaces_every_occurrence() {
    assert_eq!(ws_url("http://a/http://b"), "ws://a/ws://b/ws");
}

#[test]
fn replace_all_matches_str_replace() {
    for (s, from, to) in [
        ("aaaa", "aa", "b"),
        ("abcabc", "bc", "XYZ"),
        ("", "a", "b"),
        ("héllo wörld", "ö", "o"),
        ("aaa", "aa", ""),
    ] {
        assert_eq!(replace_all(s, from, to), s.replace(from, to));
    }
}

#[test]
fn decimal_strings() {
    assert_eq!(decimal_string(0), "0");
    assert_eq!(decimal_string(7), "7");
    assert_eq!(decimal_string(404), "404");
    assert_eq!(decimal_string(65535), "65535");
}

#[test]
fn http_errors() {
    assert_eq!(http_error(404).0, "HTTP 404");
    assert_eq!(http_error(500).0, "HTTP 500");
    assert_eq!(http_error(404).message(), "ConvexError: HTTP 404");
}

#[test]
fn error_message() {
    let e = ConvexError(String::from("boom"));
    assert_eq!(e.message(), "ConvexError: boom");
}
