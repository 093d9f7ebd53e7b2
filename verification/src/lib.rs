//! A virtual-document-tree library: an immutable tree model of user-interface
//! state, a diff engine that compares two snapshots and emits an ordered list
//! of index-addressed patches, and an application engine that replays those
//! patches against a live document tree, keeping track of the event-handler
//! resources attached to materialized elements.
//!
//! The live document is represented by [`dom::LiveNode`]; a host binding that
//! mirrors those values into a real rendered document is expected to sit
//! outside this crate and to honor the same structural-index counting rules.

pub mod diff;
pub mod dom;
pub mod node;
pub mod template;
