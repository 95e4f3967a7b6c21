//! Reliable fan-out delivery of a dispute statement bundle to a changing set
//! of validators.
//!
//! The crate tracks, per dispute, which peers have an attempt in flight and
//! which have confirmed receipt.  A periodic refresh reconciles the tracking
//! map against the freshly resolved target set: it prunes peers that are no
//! longer relevant, keeps every still-relevant entry untouched, and admits one
//! new in-flight attempt for each newly relevant peer.  Failed attempts drop
//! their entry so that the next refresh retries them.
//!
//! All waiting, spawning and network traffic is the driver's business: the
//! driver resolves session membership, spawns one response-wait task per
//! dispatched request, and feeds each completion back in.  The types here hold
//! only plain values, so every decision the sender makes is verified.

pub mod authority_set;
pub mod deliveries;
pub mod resolver;
pub mod send_task;
pub mod status;
