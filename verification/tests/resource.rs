//! Tests of the user resource service: listing, echoing, and the dispatch
//! of requests by method and path.

use user_service::service::{create_user, get_users, handle_request, Method};
use user_service::user::User;

#[test]
fn listing_is_nonempty_and_holds_the_known_record() {
    let users = get_users();
    assert!(users.len() >= 1);
    assert_eq!(users[0].id, 1);
    assert_eq!(users[0].name, "Bob");
}

#[test]
fn create_echoes_the_record_unchanged() {
    let u = User { id: 7, name: "Zoe".to_string() };
    let r = create_user(u);
    assert_eq!(r.id, 7);
    assert_eq!(r.name, "Zoe");
}

#[test]
fn list_request_returns_the_fixed_listing() {
    let r = handle_request(Method::Get, "/api/users", "");
    assert_eq!(r.status, 200);
    assert_eq!(r.body, "[{\"id\":1,\"name\":\"Bob\"}]");
}

#[test]
fn create_request_echoes_the_body() {
    let body = "{\"id\":7,\"name\":\"Zoe\"}";
    let r = handle_request(Method::Post, "/api/users", body);
    assert_eq!(r.status, 200);
    assert_eq!(r.body.as_bytes(), body.as_bytes());
}

#[test]
fn create_request_echoes_unicode_byte_for_byte() {
    let body = "{\"id\":5,\"name\":\"h\u{e9}llo \u{2713}\"}";
    let r = handle_request(Method::Post, "/api/users", body);
    assert_eq!(r.status, 200);
    assert_eq!(r.body.as_bytes(), body.as_bytes());
}

#[test]
fn create_request_with_missing_name_is_a_client_error() {
    let r = handle_request(Method::Post, "/api/users", "{\"id\":1}");
    assert_eq!(r.status, 400);
    assert_eq!(r.body, "");
}

#[test]
fn create_request_with_undecodable_body_is_a_client_error() {
    let r = handle_request(Method::Post, "/api/users", "not json at all");
    assert_eq!(r.status, 400);
}

#[test]
fn create_does_not_persist() {
    let c = handle_request(Method::Post, "/api/users", "{\"id\":99,\"name\":\"X\"}");
    assert_eq!(c.status, 200);
    let l = handle_request(Method::Get, "/api/users", "");
    assert_eq!(l.status, 200);
    assert_eq!(l.body, "[{\"id\":1,\"name\":\"Bob\"}]");
    assert!(!l.body.contains("99"));
}

#[test]
fn listing_is_stable_across_repeated_calls() {
    let first = handle_request(Method::Get, "/api/users", "");
    let second = handle_request(Method::Get, "/api/users", "");
    let third = handle_request(Method::Get, "/api/users", "");
    assert_eq!(first.status, second.status);
    assert_eq!(first.body, second.body);
    assert_eq!(second.body, third.body);
}

#[test]
fn unknown_path_is_not_found() {
    let r = handle_request(Method::Get, "/users", "");
    assert_eq!(r.status, 404);
    assert_eq!(r.body, "");
    let r2 = handle_request(Method::Post, "/api/users/1", "{\"id\":1,\"name\":\"x\"}");
    assert_eq!(r2.status, 404);
}

#[test]
fn other_method_on_the_collection_is_not_allowed() {
    let r = handle_request(Method::Other, "/api/users", "");
    assert_eq!(r.status, 405);
    assert_eq!(r.body, "");
}
