//! A LAN intercom's verified core: the wire format, the reorder window, the
//! send and receive state, the audio pipeline's decisions and its mixer, the
//! roster, the session, the key table and the settings.

pub mod wire;
pub mod jitter;
pub mod link;
pub mod audio;
pub mod text;
pub mod discovery;
pub mod config;
pub mod keys;
pub mod session;
pub mod commands;
