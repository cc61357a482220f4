//! Intent-shaped access to language servers: semantic `rename`, `references`
//! and `diagnostics`.

pub mod apply;
pub mod blocks;
pub mod client;
pub mod conduct;
pub mod decode;
pub mod error;
pub mod json;
pub mod lifecycle;
pub mod messages;
pub mod order;
pub mod path;
pub mod positions;
pub mod preview;
pub mod regions;
pub mod render;
pub mod resolve;
pub mod results;
pub mod session;
pub mod summary;
pub mod text;
pub mod transport;
pub mod uri;
pub mod workspace;
