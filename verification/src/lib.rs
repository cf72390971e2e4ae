//! A virtual DOM.
//!
//! A tree of elements and texts describes what is to be shown. Two such trees
//! are compared, which gives an ordered list of patches, and the patches are
//! carried out on the surface that shows the first tree, which then shows the
//! second.
//!
//! - [`vnode`], [`vtag`], [`vtext`]: the tree.
//! - [`keyed`], [`text`]: the collections of attributes, classes and
//!   listeners of an element, kept in dictionary order of their keys.
//! - [`patch`]: the one shape that every patch has.
//! - [`differ`]: comparing two trees.
//! - [`surface`], [`applier`], [`render`]: carrying out patches.
//! - [`listener`], [`subscriptions`], [`registry`], [`pool`]: listeners, the
//!   subscriptions that patches start and end, the handles of the listeners
//!   that are attached, and the messages they make.
//! - [`laws`], [`soundness`], [`keyed_laws`], [`grafting`]: what is proved of
//!   all trees: above all, that the patches between two trees, carried out on
//!   the first, give the second.

pub mod applier;
pub mod differ;
pub mod grafting;
pub mod keyed;
pub mod keyed_laws;
pub mod laws;
pub mod listener;
mod merge;
pub mod patch;
pub mod pool;
pub mod registry;
pub mod render;
pub mod soundness;
pub mod subscriptions;
pub mod surface;
pub mod text;
pub mod vnode;
pub mod vtag;
pub mod vtext;

pub use crate::listener::{Listener, Messages};
pub use crate::patch::Patch;
pub use crate::vnode::VNode;
pub use crate::vtag::VTag;
pub use crate::vtext::VText;
