//! The records the service stores and exchanges.
use vstd::prelude::*;

verus! {

/// What a signed session token asserts: who (`sub`), with which role, until when (`exp`,
/// Unix seconds).
#[derive(Debug)]
pub struct UserClaims {
    pub sub: String,
    pub role: String,
    pub exp: usize,
}

/// A camera as stored: `source_type` is `hls` (recorded from `stream_url`) or
/// `stream_key` (published over RTMP with `stream_key`); `rewind_hours` is how far back
/// its recordings reach.
#[derive(Debug)]
pub struct Camera {
    pub id: i64,
    pub name: String,
    pub location: Option<String>,
    pub source_type: String,
    pub stream_url: Option<String>,
    pub stream_key: Option<String>,
    pub rewind_hours: i64,
    pub recording: bool,
    pub created_at: String,
}

/// A request to add a camera.
#[derive(Debug)]
pub struct CreateCamera {
    pub name: String,
    pub location: Option<String>,
    pub source_type: String,
    pub stream_url: Option<String>,
    pub rewind_hours: Option<i64>,
}

/// A request to change some fields of a camera.
#[derive(Debug)]
pub struct UpdateCamera {
    pub name: Option<String>,
    pub location: Option<String>,
    pub source_type: Option<String>,
    pub stream_url: Option<String>,
    pub rewind_hours: Option<i64>,
    pub recording: Option<bool>,
}

/// A user account as stored.
#[derive(Debug)]
pub struct User {
    pub id: i64,
    pub username: String,
    pub password_hash: String,
    pub role: String,
    pub created_at: String,
}

/// A login attempt.
#[derive(Debug)]
pub struct LoginRequest {
    pub username: String,
    pub password: String,
}

/// A request to add a user; the role defaults to `user`.
#[derive(Debug)]
pub struct CreateUser {
    pub username: String,
    pub password: String,
    pub role: Option<String>,
}

/// A request to change a user's password or role.
#[derive(Debug)]
pub struct UpdateUser {
    pub password: Option<String>,
    pub role: Option<String>,
}

/// Service-wide settings.
#[derive(Debug)]
pub struct SystemSettings {
    pub default_rewind_hours: i64,
    pub rtmp_port: i64,
}

/// The query of a DVR playlist request: start time and length in seconds.
#[derive(Debug)]
pub struct DvrQuery {
    pub from: Option<i64>,
    pub duration: Option<i64>,
}

} // verus!
