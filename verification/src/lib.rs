//! A diary widget's core: where the diary lives, how an entry is written into
//! a day's Markdown file, and how the file is read back.
pub mod config;
pub mod diary;
pub mod entries;
pub mod laws;
pub mod block;
pub mod error;
pub mod format;
pub mod frontmatter;
pub mod markdown;
pub mod order;
pub mod outside;
pub mod readback;
pub mod text;
pub mod yaml;
