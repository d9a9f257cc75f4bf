//! Reconciliation of a declarative UI tree with a live host tree.
//!
//! The declarative tree ([`vdom`], built with [`html`]) describes the desired
//! structure; [`render`] serialises it to indented markup. The live tree
//! ([`live`], [`host`]) stands for the host's document: every change to it is
//! recorded as an operation for the host to carry out.
//!
//! A reconciliation cycle takes a list of patches ([`patch`]), each addressed
//! by the index that its target has when the tree is numbered in document
//! order. The nodes are located in one walk ([`locate`]), and each patch is
//! applied to its node ([`apply_patches`]). Subtrees that enter the tree are
//! built by [`create`]. Callbacks registered on live elements are tracked in
//! the closure registry ([`closures`]) and retired when their elements leave
//! the tree; [`liveness`] shows that none is lost on the way.
pub mod apply_patches;
pub mod closures;
pub mod create;
pub mod error;
pub mod host;
pub mod html;
pub mod live;
pub mod liveness;
pub mod locate;
pub mod merge;
pub mod patch;
pub mod render;
pub mod task;
pub mod text;
pub mod vdom;
