//! A verified core for a Gossipsub-style publish/subscribe overlay: the
//! topic mesh, the fanout table, the view of remote subscriptions, the
//! sliding message cache, duplicate suppression and the heartbeat rules.

pub mod constants;
pub mod types;
pub mod wire;
pub mod errors;
pub mod message;
pub mod peers;
pub mod mesh;
pub mod seen;
pub mod mcache;
pub mod peer_view;
pub mod fanout;
pub mod heartbeat;
pub mod control;
pub mod gossipsub;
