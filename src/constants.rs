use vstd::prelude::*;

verus! {

/// The target number of peers in the mesh of a topic.
pub const TARGET_MESH_DEGREE: u32 = 6;

/// Below this many mesh peers the heartbeat grafts new ones.
pub const LOW_WM_MESH_DEGREE: u32 = 4;

/// Above this many mesh peers the heartbeat prunes some.
pub const HIGH_WM_MESH_DEGREE: u32 = 12;

/// Reserved for tuning the gossip window; not used by the rules below.
pub const GOSSIP_HIST_LEN: u32 = 5;

/// The number of newest cache slots whose ids are advertised in IHAVE.
pub const HISTORY_GOSSIP: u32 = 3;

/// The number of heartbeat slots that the message cache keeps.
pub const MSG_HIST_LEN: u32 = 120;

/// The capacity of the set of seen message hashes.
pub const SEEN_MSGS_CACHE: u32 = 120;

/// Delay before the first heartbeat, in milliseconds.
pub const HEARTBEAT_INITIAL_DELAY: u32 = 100;

/// Interval between heartbeats, in seconds.
pub const HEARTBEAT_INTERVAL: u32 = 1;

/// How long a fanout entry lives without a publish, in seconds.
pub const FANOUT_TTL: u32 = 60;

/// How long a fanout entry lives without a publish, in milliseconds.
pub const FANOUT_TTL_MS: i64 = 60000;

/// The largest payload that may be published, in bytes (1 MiB).
pub const MAX_MESSAGE_SIZE: usize = 1048576;

} // verus!
