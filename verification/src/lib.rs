//! Verified core of a traffic-camera DVR service.
pub mod admin;
pub mod archive;
pub mod auth;
pub mod clock;
pub mod dvr;
pub mod live;
pub mod models;
pub mod order;
pub mod recorder;
pub mod text;
