//! What the library promises, in terms of what goes in and what comes out.
//!
//! The other modules say what each function returns. The laws here say what that is
//! for: what is kept, what is lost, what stays connected, and in which order.

// Numbers and lists.
pub mod measures;
pub mod selections;

// The network and how it changes.
pub mod network;
pub mod dedup;

// The course of a simplification.
pub mod course;
pub mod components;

// What artifacts, strokes and lines have to do with each other.
pub mod strokes;
pub mod coverage;
pub mod connections;
pub mod lines;

// How artifacts are simplified: alone, in pairs and in clusters.
pub mod artifacts;
pub mod pairs;
pub mod clusters;

// Formats.
pub mod formats;
