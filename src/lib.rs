//! Shuffled hardlink playlists on FAT32 volumes for players that play files in
//! directory order.
//!
//! The volume keeps its originals in a music directory and surfaces them, in
//! a shuffled order, as hardlinks in a link directory. The library plans what
//! each command does to the volume as a list of operations, and states and
//! proves what those operations do to a model of the layout.

pub mod clean;
pub mod fat;
pub mod fix;
pub mod import;
pub mod info;
pub mod laws;
pub mod layout;
pub mod lsblk;
pub mod names;
pub mod plan;
pub mod shuffle;
pub mod volume;
