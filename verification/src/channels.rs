//! Channels between executors.
pub mod channel_mesh;
pub mod shared_channel;
pub mod spsc_queue;
