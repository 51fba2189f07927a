//! Texture atlas bookkeeping: packs many small images into the layers of one
//! large texture array, tracks where each image lives and reclaims the space of
//! images that are no longer needed.
//!
//! The GPU side (texture creation, copies, writes) is left to the caller: the
//! operations here return what has to be done to the texture.
pub mod rect;
pub mod allocator;
pub mod allocation;
pub mod atlas;
pub mod store;
pub mod recency;
pub mod atlas_set;
