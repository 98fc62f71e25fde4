//! Request parsing and the structured request type.

use tosic_http::body::{BodySize, NoneBody};
use tosic_http::errors::ServerError;
use tosic_http::headers::Headers;
use tosic_http::method::Method;
use tosic_http::request::HttpRequest;
use tosic_http::method::Version;

#[test]
fn test_http_request_new() {
    let request = HttpRequest::new(
        Method::Get,
        "/test".to_string(),
        Headers::new(),
        Version::Http11,
    );

    assert_eq!(request.method, Method::Get);
    assert_eq!(request.path, "/test".to_string());
    assert_eq!(request.headers.len(), 0);
    assert_eq!(request.version, Version::Http11);
    assert!(request.params.is_empty());
}

#[test]
fn test_http_request_from_bytes_complete() {
    let bytes = b"GET /test HTTP/1.1\r\nHost: example.com\r\nUser-Agent: test-agent\r\n\r\n";

    let (request, _) = HttpRequest::from_bytes(bytes).unwrap();

    assert_eq!(request.method, Method::Get);
    assert_eq!(request.path, "/test".to_string());
    assert_eq!(request.version, Version::Http11);

    let host_header = request.headers.get("Host").unwrap();
    assert_eq!(host_header, "example.com");

    let user_agent_header = request.headers.get("User-Agent").unwrap();
    assert_eq!(user_agent_header, "test-agent");
}

#[test]
fn test_http_request_from_bytes_incomplete() {
    let bytes = b"GET /test HTTP/1.1\r\nHost: example.com";

    let result = HttpRequest::from_bytes(bytes);
    assert!(result.is_err());
    assert!(matches!(result, Err(ServerError::PartialParsed)));
}

#[test]
fn test_request_query_split() {
    let bytes = b"GET /search?q=verus&n=3 HTTP/1.1\r\n\r\n";
    let (request, _) = HttpRequest::from_bytes(bytes).unwrap();
    assert_eq!(request.path, "/search".to_string());
    assert_eq!(request.query, Some("q=verus&n=3".to_string()));
}

#[test]
fn test_request_body_is_payload() {
    let bytes = b"POST /x HTTP/1.1\r\nContent-Length: 5\r\n\r\nhello";
    let (_, payload) = HttpRequest::from_bytes(bytes).unwrap();
    assert_eq!(payload.body, b"hello".to_vec());
}

#[test]
fn test_payload_limited_to_content_length() {
    let bytes = b"POST /x HTTP/1.1\r\nContent-Length: 1\r\n\r\nhi";
    let (_, payload) = HttpRequest::from_bytes(bytes).unwrap();
    assert_eq!(payload.body, b"h".to_vec());

    let absent = b"POST /x HTTP/1.1\r\n\r\nhi";
    let (_, empty) = HttpRequest::from_bytes(absent).unwrap();
    assert_eq!(empty.body, b"".to_vec());
}

#[test]
fn test_request_header_names_fold_case() {
    let bytes = b"GET / HTTP/1.1\r\nX-Thing: One\r\n\r\n";
    let (request, _) = HttpRequest::from_bytes(bytes).unwrap();
    assert_eq!(request.headers.get("x-thing"), Some(&"One".to_string()));
    assert_eq!(request.headers.get("X-THING"), Some(&"One".to_string()));
}

#[test]
fn test_request_errors_by_shape() {
    assert!(matches!(
        HttpRequest::from_bytes(b"GET\r\n\r\n"),
        Err(ServerError::UriEmpty)
    ));
    assert!(matches!(
        HttpRequest::from_bytes(b"GET /x\r\n\r\n"),
        Err(ServerError::VersionEmpty)
    ));
    assert!(matches!(
        HttpRequest::from_bytes(b"FOO / HTTP/1.1\r\n\r\n"),
        Err(ServerError::ParseError)
    ));
    assert!(matches!(
        HttpRequest::from_bytes(b"GET  HTTP/1.1\r\n\r\n"),
        Err(ServerError::UriEmpty)
    ));
    assert!(matches!(
        HttpRequest::from_bytes(b"GET /\x7f HTTP/1.1\r\n\r\n"),
        Err(ServerError::InvalidEncoding)
    ));
    assert!(matches!(
        HttpRequest::from_bytes(b"GET / HTTP/2.0\r\n\r\n"),
        Err(ServerError::ParseError)
    ));
    assert!(matches!(
        HttpRequest::from_bytes(b"GET / HTTP/1.1\r\nnocolon\r\n\r\n"),
        Err(ServerError::ParseError)
    ));
}

#[test]
fn test_method_tokens() {
    assert_eq!(
        tosic_http::method::parse_method(&b"GET".to_vec()),
        Some(Method::Get)
    );
    assert_eq!(
        tosic_http::method::parse_method(&b"DELETE".to_vec()),
        Some(Method::Delete)
    );
    assert_eq!(tosic_http::method::parse_method(&b"BREW".to_vec()), None);
    assert_eq!(
        tosic_http::method::parse_version(&b"HTTP/1.0".to_vec()),
        Some(Version::Http10)
    );
    assert_eq!(tosic_http::method::parse_version(&b"HTTP/3".to_vec()), None);
}

#[test]
fn test_state_registry() {
    let mut state = tosic_http::state::State::new();
    assert_eq!(state.get(1), None);
    state.insert(1, 100);
    state.insert(2, 200);
    state.insert(1, 101);
    assert_eq!(state.get(1), Some(101));
    assert_eq!(state.get(2), Some(200));
    assert_eq!(state.get(3), None);
}

#[test]
fn test_param_map() {
    let mut params = tosic_http::params::ParamMap::new();
    assert!(params.is_empty());
    assert!(!params.contains_key("a"));
    params.insert("a".to_string(), "1".to_string());
    params.insert("a".to_string(), "2".to_string());
    assert_eq!(params.get("a"), Some(&"2".to_string()));
    assert!(params.contains_key("a"));
    assert!(!params.is_empty());
}

#[test]
fn test_ready_futures() {
    let r = tosic_http::futures::ready(7u32);
    assert_eq!(r.into_inner(), 7);
    let ok: tosic_http::futures::Ready<Result<u32, ServerError>> = tosic_http::futures::ok(1);
    assert!(matches!(ok.into_inner(), Ok(1)));
    let e: tosic_http::futures::Ready<Result<u32, ServerError>> =
        tosic_http::futures::err(ServerError::ParseError);
    assert!(matches!(e.into_inner(), Err(ServerError::ParseError)));
}

#[test]
fn test_extractor_wrappers() {
    assert_eq!(tosic_http::extractors::Json(5u8).into_inner(), 5);
    assert_eq!(tosic_http::extractors::Query("q".to_string()).into_inner(), "q");
    assert_eq!(tosic_http::extractors::Path::new(vec![1u8, 2]).into_inner(), vec![1, 2]);
    let data = tosic_http::extractors::Data::new(std::sync::Arc::new(9u8));
    assert_eq!(*data.into_inner(), 9);
}

#[test]
fn test_body_size() {
    assert!(BodySize::Absent.is_eof());
    assert!(BodySize::Sized(0).is_eof());
    assert!(!BodySize::Sized(3).is_eof());
    assert_eq!(NoneBody::new().size(), BodySize::Absent);
}
