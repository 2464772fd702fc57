//! Simplification of street networks.
//!
//! A network of streets holds face artifacts: small faces between the lines of a
//! dual carriageway, a roundabout or a junction. The simplification finds how they
//! can be replaced by single lines. This library decides; what is measured in
//! floating point is handed to it.

// Numbers and lists.
pub mod measure;
pub mod lists;

// The network and how it changes.
pub mod types;
pub mod input;
pub mod network;
pub mod dedup;
pub mod additions;

// The course of a simplification.
pub mod pipeline;
pub mod components;

// What artifacts, strokes and lines have to do with each other.
pub mod ces;
pub mod coverage;
pub mod ring;
pub mod connections;

// How artifacts are simplified: alone, in pairs and in clusters.
pub mod steps;
pub mod singletons;
pub mod nx_gx;
pub mod follow_up;
pub mod pairs;
pub mod clusters;

// Formats.
pub mod binary;
pub mod text;

// What all of it promises.
pub mod laws;
