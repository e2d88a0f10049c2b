//! Connected-component labeling of binary rasters with a block-based union-find forest.
//!
//! Every foreground pixel receives the label of its 8-connected component: one more than
//! the least flat index of a pixel of the component.  Background pixels keep the sentinel
//! `0`.  The labeling is computed by five kernels in six dispatches: seeding, flattening,
//! union, flattening again, broadcast, visualization.
//!
//! The library lays down the plan of a run for a compute device (`dispatch`, `bindings`,
//! `layout`) and executes the same kernels on the host (`init`, `compress`, `merge`,
//! `final_labeling`, `label_to_rgba`), one invocation at a time.  What the passes leave
//! is proved against a definition of connectivity by walks over neighboring pixels
//! (`connectivity`); `pipeline` puts the passes together.

pub mod error;
pub mod geometry;
pub mod bindings;
pub mod dispatch;
pub mod layout;
pub mod texture;
pub mod connectivity;
pub mod forest;
pub mod invocation;
pub mod neighborhood;
pub mod init;
pub mod compress;
pub mod merge;
pub mod final_labeling;
pub mod label_to_rgba;
pub mod pipeline;
