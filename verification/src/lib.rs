//! Bidirectional directory synchronisation: the histories of two directory
//! trees, the differences between them, how conflicting differences are
//! merged, and the decisions of the watching server.

pub mod config;
pub mod difference;
pub mod event;
pub mod history;
pub mod im_types;
pub mod logger;
pub mod paths;
pub mod server;
pub mod timestamp;
