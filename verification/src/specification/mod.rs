//! The provisioning specification: its model, its parser and the helpers it
//! needs.

pub mod bytes;
pub mod error;
pub mod load;
pub mod loading;
pub mod model;
pub mod net;
pub mod overrides;
pub mod reader;
pub mod secret;
pub mod sha256;
