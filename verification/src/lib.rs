//! Verified core of a 2D telemetry monitor: a binary wire protocol that
//! carries camera, layer, sync-group and sample updates; per-topic bounded
//! sample histories with joint age/capacity eviction; and an incremental
//! bounding-box cache that avoids rescanning unchanged data.

pub mod aabb;
pub mod bytes;
pub mod cache;
pub mod colors;
pub mod content;
pub mod decode;
pub mod encode;
pub mod figure;
pub mod frame;
pub mod roundtrip;
pub mod scalar;
pub mod vertex;

