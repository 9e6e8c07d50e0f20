//! Scene-graph core of a retained-mode GUI toolkit: a tree of widgets stored in
//! an index arena and rooted at a screen that drives drawing and tracks the
//! pointer.
pub mod widget;
pub mod tree;
pub mod screen;
pub mod laws;
