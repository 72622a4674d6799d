//! Garou: the logic of a Kitty-graphics image viewer for the terminal,
//! written in Verus: natural file ordering, configuration parsing, the
//! LRU image cache, frame differencing, the sidebar tree and the input
//! state machine.
pub mod text;
pub mod natural;
pub mod paths;
pub mod sorting;
pub mod config;
pub mod frame;
pub mod cache;
pub mod filetree;
pub mod listing;
pub mod viewer;
pub mod session;
pub mod kitty;
pub mod render;
pub mod pipeline;
pub mod screen;
pub mod cli;
