//! Artifact pruner: groups build artifacts named `<base>-<16 hash chars>.<ext>`
//! by their hash-stripped logical key and plans the deletion of every group
//! member except the most recently modified one.

pub mod classify;
pub mod entry;
pub mod group;
pub mod plan;
