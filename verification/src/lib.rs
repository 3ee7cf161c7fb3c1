//! Coordinator for a multi-process browsing engine.
//!
//! The constellation owns the registry of live pipelines (one per document),
//! the frame tree that composes nested documents into a page, the session
//! history, and the queue of pending navigations.  It consumes one inbox
//! message at a time and decides which pipelines are created, loaded,
//! granted or revoked paint permission, and shut down.
//!
//! All interaction with the outside world (channels to the compositor, to
//! per-pipeline script workers, to the resource and image-cache tasks) is
//! returned from the handlers as a sequence of [`constellation::Action`]
//! values; a thin driver performs them in order.

pub mod url;
pub mod pipeline;
pub mod frame_tree;
pub mod navigation;
pub mod constellation;
