//! Counting the entries of a directory tree in two phases.
//!
//! A bounded walk builds a map of the directories near the root; the
//! directories at the depth limit are counted apart, each on its own, and a
//! bottom-up pass then sums every directory's subtree into its node.
//!
//! The library never touches the file system. A caller walks the tree and
//! hands over what it saw as [`event::WalkEvent`] values; everything decided
//! about those values is decided, and proved, here.
//!
//! - [`hidden`]: which names are hidden.
//! - [`event`]: what a walk reports.
//! - [`subtree`]: the count of the entries beneath one directory.
//! - [`node_map`]: the map of directories.
//! - [`hierarchy`]: the map built from a bounded walk.
//! - [`aggregate`]: the counts of the deferred subtrees, put into the map.
//! - [`rollup`]: the total of each directory, summed bottom-up.
//! - [`census`]: what the root comes to, accounted for entry by entry.
//! - [`display`] and [`order`]: what is shown, and in which order.

pub mod aggregate;
pub mod census;
pub mod display;
pub mod event;
pub mod hidden;
pub mod hierarchy;
pub mod node_map;
pub mod order;
pub mod rollup;
pub mod subtree;
