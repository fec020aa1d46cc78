//! Grows an image that holds every color of a given per-channel bit depth
//! exactly once: an octree over the color cube answers exact
//! nearest-available-color queries with one-time removal, and a grid tracks
//! the random growth frontier that consumes those colors.

pub mod allcolors;
pub mod colortree;
pub mod display;
pub mod imagemap;
