//! The connection pipeline, the extraction combinator, response
//! serialization and compression.

use std::io::Read;

use tosic_http::builder::{HttpServerBuilder, RouteBuilder};
use tosic_http::handlers::{route_request, Handlers};
use tosic_http::method::{Method, Version};
use tosic_http::route::node::HandlerFn;
use tosic_http::compression::{
    apply_compression, negotiate_encoding, parse_accept_encoding, CompressionType,
};
use tosic_http::connection::{content_length_of, finalize_response, parse_dec, RequestReader};
use tosic_http::errors::{Error, ServerError};
use tosic_http::extract::{ExtractAll, ExtractPoll, PollOutcome};
use tosic_http::response::{parse_response, HttpResponse};

#[test]
fn test_reader_stays_reading_until_body_arrives() {
    let mut reader = RequestReader::new();
    let first = reader.feed(b"POST /x HTTP/1.1\r\nContent-Length: 5\r\n\r\nab");
    assert!(matches!(first, Ok(false)));
    let second = reader.feed(b"cde");
    assert!(matches!(second, Ok(true)));
}

#[test]
fn test_reader_fails_when_peer_closes_early() {
    let mut reader = RequestReader::new();
    let first = reader.feed(b"POST /x HTTP/1.1\r\nContent-Length: 5\r\n\r\nab");
    assert!(matches!(first, Ok(false)));
    let closed = reader.feed(b"");
    assert!(matches!(closed, Err(ServerError::ConnectionClosed)));
}

#[test]
fn test_reader_without_content_length() {
    let mut reader = RequestReader::new();
    assert!(matches!(reader.feed(b"GET / HTTP/1.1\r\n"), Ok(false)));
    assert!(matches!(reader.feed(b"\r\n"), Ok(true)));
}

#[test]
fn test_content_length_parse() {
    let buffer = b"GET / HTTP/1.1\r\nContent-Length: 42\r\n\r\n".to_vec();
    assert_eq!(content_length_of(&buffer), 42);
    let folded = b"GET / HTTP/1.1\r\ncOnTeNt-LeNgTh: 7\r\n\r\n".to_vec();
    assert_eq!(content_length_of(&folded), 7);
    let absent = b"GET / HTTP/1.1\r\n\r\n".to_vec();
    assert_eq!(content_length_of(&absent), 0);
    let junk = b"GET / HTTP/1.1\r\nContent-Length: many\r\n\r\n".to_vec();
    assert_eq!(content_length_of(&junk), 0);
}

#[test]
fn test_parse_dec() {
    assert_eq!(parse_dec(&b"123".to_vec()), Some(123));
    assert_eq!(parse_dec(&b"0".to_vec()), Some(0));
    assert_eq!(parse_dec(&b"".to_vec()), None);
    assert_eq!(parse_dec(&b"12a".to_vec()), None);
}

#[test]
fn test_response_round_trip() {
    let mut response = HttpResponse::new(200);
    response.insert_header("Content-Type".to_string(), "text/plain".to_string());
    let response = response.set_body(b"abc".to_vec());
    let bytes = response.to_bytes();

    let parsed = parse_response(&bytes).unwrap();
    assert_eq!(parsed.status_code, 200);
    assert_eq!(parsed.headers.len(), 1);
    assert_eq!(parsed.headers.get("Content-Type"), Some(&"text/plain".to_string()));
    assert_eq!(parsed.body, b"abc".to_vec());
}

#[test]
fn test_finalize_stamps_length_and_close() {
    let response = HttpResponse::new(200).set_body(b"abc".to_vec());
    let bytes = finalize_response(response);
    let parsed = parse_response(&bytes).unwrap();
    assert_eq!(parsed.headers.get("Content-Length"), Some(&"3".to_string()));
    assert_eq!(parsed.headers.get("Connection"), Some(&"close".to_string()));
    assert_eq!(parsed.body, b"abc".to_vec());
}

#[test]
fn test_status_line_text() {
    let bytes = HttpResponse::new(404).to_bytes();
    let text = String::from_utf8(bytes).unwrap();
    assert!(text.starts_with("HTTP/1.1 404 Not Found\r\n"));

    let moved = String::from_utf8(HttpResponse::new(301).to_bytes()).unwrap();
    assert!(moved.starts_with("HTTP/1.1 301 Moved Permanently\r\n"));
    let teapot = String::from_utf8(HttpResponse::new(418).to_bytes()).unwrap();
    assert!(teapot.starts_with("HTTP/1.1 418 I'm a teapot\r\n"));
    let unknown = String::from_utf8(HttpResponse::new(299).to_bytes()).unwrap();
    assert!(unknown.starts_with("HTTP/1.1 299 Unknown\r\n"));
}

#[test]
fn test_error_responses() {
    let resp = ServerError::ParseError.error_response();
    assert_eq!(resp.status_code, 500);
    let client = ServerError::ExtractionError(
        tosic_http::errors::ExtractionError::MissingPathField,
    )
    .error_response();
    assert_eq!(client.status_code, 400);
    let custom = Error::new(418, "teapot".to_string()).error_response();
    assert_eq!(custom.status_code, 418);
    assert_eq!(custom.body, b"teapot".to_vec());
}

#[test]
fn test_not_found_handler_response() {
    let req = tosic_http::request::HttpRequest::new(
        tosic_http::method::Method::Get,
        "/missing".to_string(),
        tosic_http::headers::Headers::new(),
        tosic_http::method::Version::Http11,
    );
    let resp = tosic_http::handlers::not_found(&req);
    assert_eq!(resp.status_code, 404);
    assert_eq!(resp.body, b"Not Found".to_vec());
}

#[test]
fn test_combinator_fails_with_failing_operation() {
    let mut all: ExtractAll<u32> = ExtractAll::new(3);
    let outcome = all.poll(vec![
        PollOutcome::Pending,
        PollOutcome::Ready(Err("boom")),
        PollOutcome::Ready(Ok(3)),
    ]);
    assert!(matches!(outcome, ExtractPoll::Failed("boom")));
}

#[test]
fn test_combinator_never_succeeds_past_error() {
    let mut all: ExtractAll<u32> = ExtractAll::new(2);
    let outcome = all.poll(vec![
        PollOutcome::Ready(Ok(1)),
        PollOutcome::Ready(Err("late")),
    ]);
    assert!(matches!(outcome, ExtractPoll::Failed("late")));
}

#[test]
fn test_combinator_preserves_declaration_order() {
    let mut all: ExtractAll<u32> = ExtractAll::new(3);
    let w1: ExtractPoll<u32, &str> = all.poll(vec![
        PollOutcome::Pending,
        PollOutcome::Pending,
        PollOutcome::Ready(Ok(30)),
    ]);
    assert!(matches!(w1, ExtractPoll::Pending));
    let w2: ExtractPoll<u32, &str> = all.poll(vec![
        PollOutcome::Pending,
        PollOutcome::Ready(Ok(20)),
        PollOutcome::Pending,
    ]);
    assert!(matches!(w2, ExtractPoll::Pending));
    let w3: ExtractPoll<u32, &str> = all.poll(vec![
        PollOutcome::Ready(Ok(10)),
        PollOutcome::Pending,
        PollOutcome::Pending,
    ]);
    match w3 {
        ExtractPoll::Finished(vs) => assert_eq!(vs, vec![10, 20, 30]),
        _ => panic!("combinator should have finished"),
    }
}

#[test]
fn test_accept_encoding_parse_and_negotiate() {
    // Entries come back sorted by q descending, ties in header order.
    let entries = parse_accept_encoding("gzip;q=0.5, deflate");
    assert_eq!(entries, vec![
        (CompressionType::Deflate, 1000),
        (CompressionType::Gzip, 500),
    ]);
    let tied = parse_accept_encoding("gzip;q=0.5, deflate;q=0.5");
    assert_eq!(tied, vec![
        (CompressionType::Gzip, 500),
        (CompressionType::Deflate, 500),
    ]);
    let server = vec![CompressionType::Gzip, CompressionType::Deflate];
    assert_eq!(negotiate_encoding(&entries, &server), Some(CompressionType::Deflate));

    let star = parse_accept_encoding("*");
    assert_eq!(star, vec![(CompressionType::Gzip, 1000)]);
    assert_eq!(negotiate_encoding(&star, &server), Some(CompressionType::Gzip));

    let none = parse_accept_encoding("br");
    assert_eq!(negotiate_encoding(&none, &server), None);
}

#[test]
fn test_gzip_compression_transforms_body() {
    let body = b"hello hello hello hello hello".to_vec();
    let response = HttpResponse::new(200).set_body(body.clone());
    let accept = "gzip".to_string();
    let compressed = apply_compression(response, Some(&accept));
    assert_eq!(compressed.headers.get("Content-Encoding"), Some(&"gzip".to_string()));
    assert_eq!(compressed.headers.get("Vary"), Some(&"Accept-Encoding".to_string()));
    assert_ne!(compressed.body, body);
    assert_eq!(&compressed.body[0..2], &[0x1f, 0x8b]);

    let mut decoder = flate2::read::GzDecoder::new(&compressed.body[..]);
    let mut decoded = Vec::new();
    decoder.read_to_end(&mut decoded).unwrap();
    assert_eq!(decoded, body);
}

#[test]
fn test_deflate_compression_transforms_body() {
    let body = b"abcabcabcabcabcabc".to_vec();
    let response = HttpResponse::new(200).set_body(body.clone());
    let accept = "deflate;q=1, gzip;q=0.1".to_string();
    let compressed = apply_compression(response, Some(&accept));
    assert_eq!(compressed.headers.get("Content-Encoding"), Some(&"deflate".to_string()));
    assert_ne!(compressed.body, body);

    let mut decoder = flate2::read::DeflateDecoder::new(&compressed.body[..]);
    let mut decoded = Vec::new();
    decoder.read_to_end(&mut decoded).unwrap();
    assert_eq!(decoded, body);
}

#[test]
fn test_no_accept_header_keeps_body() {
    let body = b"plain".to_vec();
    let response = HttpResponse::new(200).set_body(body.clone());
    let out = apply_compression(response, None);
    assert_eq!(out.body, body);
    assert_eq!(out.headers.get("Vary"), Some(&"Accept-Encoding".to_string()));
    assert_eq!(out.headers.get("Content-Encoding"), None);
}

#[test]
fn test_builder_collects_routes() {
    let group = RouteBuilder::new("/things/{id}")
        .get(HandlerFn::new(1))
        .post(HandlerFn::new(2));
    let builder = HttpServerBuilder::new()
        .service_method(Method::Delete, "/things/{id}", HandlerFn::new(3))
        .route(group)
        .app_state(1, 10)
        .bind("127.0.0.1:8080".to_string());

    let w = builder.handlers.get_handler(&Method::Get, "/things/9");
    assert_eq!(w.handler(), HandlerFn::new(1));
    assert_eq!(w.1.get("id"), Some(&"9".to_string()));
    let d = builder.handlers.get_handler(&Method::Delete, "/things/9");
    assert_eq!(d.handler(), HandlerFn::new(3));
    assert_eq!(builder.app_state.get(1), Some(10));
    assert_eq!(builder.addr, Some("127.0.0.1:8080".to_string()));
}

#[test]
fn test_route_request_merges_params() {
    let mut handlers = Handlers::new();
    handlers.insert(Method::Get, "/echo/{message}", HandlerFn::new(4));
    let mut request = tosic_http::request::HttpRequest::new(
        Method::Get,
        "/echo/hey".to_string(),
        tosic_http::headers::Headers::new(),
        Version::Http11,
    );
    let h = route_request(&handlers, &mut request);
    assert_eq!(h, HandlerFn::new(4));
    assert_eq!(request.params.get("message"), Some(&"hey".to_string()));
}

#[test]
fn test_find_headers_end() {
    assert_eq!(tosic_http::wire::find_headers_end(b"ab\r\n\r\ncd"), Some(2));
    assert_eq!(tosic_http::wire::find_headers_end(b"ab\r\ncd"), None);
}

#[test]
fn test_whole_pipeline_echoes_parameter() {
    // One connection, end to end: bytes in, routed, answered, bytes out.
    let mut reader = RequestReader::new();
    assert!(matches!(
        reader.feed(b"GET /echo/ping HTTP/1.0\r\nHost: here\r\n\r\n"),
        Ok(true)
    ));
    let buffer = reader.into_buffer();
    let (mut request, _payload) =
        tosic_http::request::HttpRequest::from_bytes(&buffer).unwrap();

    let mut handlers = Handlers::new();
    handlers.insert(Method::Get, "/echo/{message}", HandlerFn::new(1));
    let handler = route_request(&handlers, &mut request);
    assert_eq!(handler, HandlerFn::new(1));

    let message = request.params.get("message").unwrap().clone();
    let mut response = HttpResponse::new(200).set_body(message.into_bytes());
    response.version = request.version;
    let bytes = finalize_response(response);

    let parsed = parse_response(&bytes).unwrap();
    assert_eq!(parsed.status_code, 200);
    assert_eq!(parsed.version, Version::Http10);
    assert_eq!(parsed.body, b"ping".to_vec());
    assert_eq!(parsed.headers.get("Connection"), Some(&"close".to_string()));
    assert_eq!(parsed.headers.get("Content-Length"), Some(&"4".to_string()));
}
