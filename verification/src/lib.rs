//! A small SORT-style tracker optimized for predictable motion.
//!
//! Frame by frame the tracker gives detections to the tracks that they belong
//! to. The caller predicts the box of every live track and measures its
//! overlap (IoU) with the box of every detection; everything that follows from
//! the overlaps is decided here:
//!
//! - `hungarian` and `assignment` find a minimum-cost assignment, `duality`
//!   shows that it is one, and `procedure` says which one of several;
//! - `association` assigns at cost 1 less overlap and then applies the IoU
//!   threshold, with the numbers of `binary64`;
//! - `track` and `tracker` create, age, observe, report and drop tracks, under
//!   a mode of `confidence`;
//! - `batch` keeps a tracker per scene, with one sequence of identities;
//! - `ties`, `matching`, `lifecycle` and `scenes` state what assignment,
//!   association, tracks and batches do, in terms of inputs and results alone;
//! - `laws` states what holds of all of it together, `history` what holds over
//!   any course of events, `high_only` that unused detections might as well not
//!   be there, and `renaming` that a scene is like a tracker of its own.
#![allow(unused_imports)]

pub mod assignment;
pub mod association;
pub mod batch;
pub mod binary64;
pub mod confidence;
pub mod duality;
pub mod high_only;
pub mod history;
pub mod hungarian;
pub mod laws;
pub mod lifecycle;
pub mod matching;
pub mod matrix;
pub mod procedure;
pub mod renaming;
pub mod scenes;
pub mod select;
pub mod ties;
pub mod track;
pub mod tracker;
