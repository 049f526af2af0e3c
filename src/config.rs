//! Service settings and response bodies.

use vstd::prelude::*;

use crate::text::{chars_of, string_from_chars};

verus! {

/// The service's settings.
#[derive(Debug, Clone, PartialEq)]
pub struct Config {
    pub database_url: String,
    pub redis_url: String,
    pub yt_api_key: String,
    pub bind_address: String,
    pub expose_openapi: bool,
}

/// The result cache's address when none is configured.
pub fn default_redis_url() -> (r: String)
    ensures
        r@ == "redis://redis:6379"@,
{
    string_from_chars(&chars_of("redis://redis:6379"))
}

/// The listening address when none is configured.
pub fn default_bind_address() -> (r: String)
    ensures
        r@ == "0.0.0.0:1234"@,
{
    string_from_chars(&chars_of("0.0.0.0:1234"))
}

/// The body of a response that carries a video link.
#[derive(Debug, Clone, PartialEq)]
pub struct YoutubeLinkResponse {
    pub code: u16,
    pub data: String,
}

/// The body of an error response: a message and the HTTP status code.
#[derive(Debug, Clone, PartialEq)]
pub struct ErrorResponseBody {
    pub message: String,
    pub code: u16,
}

} // verus!
