//! Core logic of a personal image-tagging database.
//!
//! The library models and verifies the data that a desktop image browser
//! keeps in memory: a sorted catalog of tag names, the per-image tag lists
//! that mirror a relational store, the selection flags that drive tag
//! checkboxes, and the queue discipline of the background image-loading
//! pipeline. Windowing, rendering, image decoding and file persistence are
//! left to an unverified shell around this crate.

pub mod catalog;
pub mod db;
pub mod image;
pub mod order;
pub mod pipeline;
pub mod state;
