//! Verified core of a patcher that replaces `DO NOT TRANSLATE` placeholders
//! next to selected item names inside a zlib-packed game data block.
pub mod codec;
pub mod count;
pub mod error;
pub mod files;
pub mod gui;
pub mod log;
pub mod patch;
pub mod pipeline;
pub mod search;
pub mod select;
pub mod steam;
pub mod text;
