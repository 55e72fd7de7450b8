//! A verified manager for on-disk writing-project bundles: a directory tree
//! with a fixed folder layout and a manifest sidecar file. The manifest's
//! interchange codec, the bundle lifecycle rules and the filesystem model
//! they act on are all verified; a thin shell mirrors the model onto a real
//! disk.
pub mod codec;
pub mod config;
pub mod fsmodel;
pub mod project;
