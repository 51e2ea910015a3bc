//! A realtime publish/subscribe broker speaking a Pusher-compatible
//! WebSocket protocol: applications, channels with four subscription
//! policies, HMAC-authenticated membership, presence bookkeeping, and a
//! JSON wire codec, all stated in contracts and verified. The caller owns
//! the transports and the catalog file; the broker decides everything else.

pub mod app;
pub mod app_manager;
pub mod bytestr;
pub mod channel;
pub mod channel_manager;
pub mod client;
pub mod crypto;
pub mod errors;
pub mod json;
pub mod json_app_manager;
pub mod message;
pub mod names;
pub mod payload;
pub mod websocket;
