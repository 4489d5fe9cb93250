//! Diskovery: a disk space analyser. This crate holds its verified core: the
//! file-system tree and its flattened view, how a scan's listing becomes a
//! tree, navigation, selection, deletion planning, the choice of drive, and
//! the text and layout of the screen.

pub mod order;
pub mod paths;
pub mod text;
pub mod fs_tree;
pub mod scanner;
pub mod app;
pub mod selection;
pub mod drive;
pub mod keys;
pub mod status;
pub mod tree_text;
pub mod layout;
