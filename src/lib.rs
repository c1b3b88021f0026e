//! A static resource server's request data path: an end-of-header scanner,
//! a weighted path resolver, a size-bounded file cache and a fan-out writer,
//! together with the small parsers the server needs around them.

pub mod filecache;
pub mod getopt;
pub mod http;
pub mod log;
pub mod requestmap;
pub mod teewriter;
pub mod text;
pub mod util;
