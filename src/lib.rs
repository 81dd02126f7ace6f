pub mod api;
pub mod auth;
pub mod cache;
pub mod clock;
pub mod codec;
pub mod error;
pub mod ident;
pub mod meta;
pub mod misc;
pub mod policy;
pub mod route;
pub mod store;
