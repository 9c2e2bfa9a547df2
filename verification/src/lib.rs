//! A breadth-first web crawler library: a verified frontier store with a
//! pending / processing / done task lifecycle, a visited tracker, depth and
//! domain policy gates, worker scheduling with idle-streak quiescence,
//! artifact extraction and deduplicated recording, and image header
//! inspection. Network, file and process edges live with the binary that
//! embeds the library.

pub mod cli;
pub mod crawler;
pub mod database;
pub mod extractor;
pub mod image_processor;
pub mod text;
pub mod urls;
