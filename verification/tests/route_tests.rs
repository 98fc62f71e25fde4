//! Route pattern and trie behaviour.

use tosic_http::method::Method;
use tosic_http::route::node::{HandlerFn, RouteNode};
use tosic_http::route::path::{Path, PathSegment};
use tosic_http::route::route::Route;

#[test]
fn test_static_match() {
    let route = Route::new("/echo/test");

    assert!(route.is_match("/echo/test").is_some());
    assert!(route.is_match("/echo/fail").is_none());
}

#[test]
fn test_parameter_match() {
    let route = Route::new("/echo/{message}");
    let params = route.is_match("/echo/hello").unwrap();
    assert_eq!(params.get("message"), Some(&"hello".to_string()));
}

#[test]
fn test_wildcard_match() {
    let route = Route::new("/echo/*");
    assert!(route.is_match("/echo/anything").is_some());
    assert!(route.is_match("/echo/multiple/segments").is_none());
}

#[test]
fn test_wildcard_deep_match() {
    let route = Route::new("/echo/**");
    let params = route.is_match("/echo/multiple/segments").unwrap();
    assert_eq!(
        params.get("wildcard_deep"),
        Some(&"multiple/segments".to_string())
    );
}

#[test]
fn test_route_addition() {
    let route1 = Route::new("/echo");
    let route2 = Route::new("/test");
    let combined = route1.concat(route2);
    assert!(combined.is_match("/echo/test").is_some());
}

#[test]
fn test_route_ordering() {
    let route1 = Route::new("/echo");
    let route2 = Route::new("/echo/{message}");
    assert!(route1 < route2);
}

#[test]
fn test_route_iteration() {
    let route = Route::new("/echo/{message}");
    let segments = route.segments();
    assert_eq!(segments.len(), 2);
}

#[test]
fn test_match_wildcard_path() {
    let mut root = RouteNode::new();
    root.insert(&Route::new("/wildcard/*"), HandlerFn::new(200));
    assert!(root.match_path("/wildcard/some_value").is_some());
}

#[test]
fn test_match_deep_wildcard_path() {
    let mut root = RouteNode::new();
    root.insert(&Route::new("/wildcard_deep/**"), HandlerFn::new(200));
    assert!(root.match_path("/wildcard_deep/any/level/of/segments").is_some());
}

#[test]
fn test_pattern_parse_kinds() {
    let segs = Path::parse("/a/{id}/*/**");
    assert_eq!(segs.len(), 4);
    assert!(matches!(&segs[0], PathSegment::Static(s) if s == "a"));
    assert!(matches!(&segs[1], PathSegment::Parameter(s) if s == "id"));
    assert!(matches!(&segs[2], PathSegment::Wildcard));
    assert!(matches!(&segs[3], PathSegment::WildcardDeep));
}

#[test]
fn test_empty_segments_dropped() {
    let segs = Path::parse("//a///b/");
    assert_eq!(segs.len(), 2);
    assert!(matches!(&segs[0], PathSegment::Static(s) if s == "a"));
    assert!(matches!(&segs[1], PathSegment::Static(s) if s == "b"));
}

#[test]
fn test_trie_parameter_capture() {
    let mut root = RouteNode::new();
    root.insert(&Route::new("/users/{id}"), HandlerFn::new(7));
    let (h, params) = root.match_path("/users/42").unwrap();
    assert_eq!(h, HandlerFn::new(7));
    assert_eq!(params.get("id"), Some(&"42".to_string()));
}

#[test]
fn test_trie_static_beats_parameter() {
    let mut root = RouteNode::new();
    root.insert(&Route::new("/users/me"), HandlerFn::new(1));
    root.insert(&Route::new("/users/{id}"), HandlerFn::new(2));
    let (h, params) = root.match_path("/users/me").unwrap();
    assert_eq!(h, HandlerFn::new(1));
    assert!(params.is_empty());
    let (h2, _) = root.match_path("/users/77").unwrap();
    assert_eq!(h2, HandlerFn::new(2));
}

#[test]
fn test_trie_deep_wildcard_capture() {
    let mut root = RouteNode::new();
    root.insert(&Route::new("/files/**"), HandlerFn::new(3));
    let (_, params) = root.match_path("/files/a/b/c").unwrap();
    assert_eq!(params.get("wildcard_deep"), Some(&"a/b/c".to_string()));
}

#[test]
fn test_trie_extend_merges() {
    let mut a = RouteNode::new();
    a.insert(&Route::new("/one"), HandlerFn::new(1));
    let mut b = RouteNode::new();
    b.insert(&Route::new("/two"), HandlerFn::new(2));
    a.extend(b);
    assert!(a.match_path("/one").is_some());
    assert!(a.match_path("/two").is_some());
}

#[test]
fn test_registry_lookup_registered() {
    let mut handlers = tosic_http::handlers::Handlers::new();
    handlers.insert(Method::Get, "/echo/{message}", HandlerFn::new(5));
    let w = handlers.get_handler(&Method::Get, "/echo/hi");
    assert_eq!(w.handler(), HandlerFn::new(5));
    assert_eq!(w.1.get("message"), Some(&"hi".to_string()));
}

#[test]
fn test_registry_unregistered_is_not_found() {
    let handlers = tosic_http::handlers::Handlers::new();
    let w = handlers.get_handler(&Method::Get, "/nope");
    assert_eq!(w.handler(), tosic_http::handlers::Handlers::not_found_handler());
    assert!(w.1.is_empty());

    let mut with_get = tosic_http::handlers::Handlers::new();
    with_get.insert(Method::Get, "/a", HandlerFn::new(9));
    let wrong_method = with_get.get_handler(&Method::Post, "/a");
    assert_eq!(wrong_method.handler(), tosic_http::handlers::Handlers::not_found_handler());
    assert!(wrong_method.1.is_empty());
    let wrong_path = with_get.get_handler(&Method::Get, "/b");
    assert_eq!(wrong_path.handler(), tosic_http::handlers::Handlers::not_found_handler());
    assert!(wrong_path.1.is_empty());
}
