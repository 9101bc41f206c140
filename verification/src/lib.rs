//! A small verified HTTP-style "users" resource: list a fixed set of user
//! records, and echo back a submitted record, with a hand-rolled JSON codec
//! for the single record shape `{"id": <integer>, "name": <string>}`.

pub mod json;
pub mod service;
pub mod user;
