//! Verified core of the Bonzomatic network tool set: websocket URLs and
//! endpoint paths, payload framing and the broadcast server's bookkeeping.

pub mod utils;
pub mod server;

pub mod bonzomatic_launcher;
pub mod bonzomatic;
pub mod radio;
pub mod activity;
