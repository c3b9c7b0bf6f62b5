//! A bundle of small text utilities with verified cores: a three-way
//! comparator of sorted line sequences with order validation and
//! configurable column rendering, plus base64 coding, line/word/byte
//! counting, path name trimming, numeric sequence generation, and sleep
//! interval parsing. Every function here carries a contract; the binary
//! around the library does nothing but read input, call in, and print.

pub mod base64;
pub mod basename;
pub mod comm;
pub mod dirname;
pub mod paths;
pub mod seqnum;
pub mod sleep;
pub mod text;
pub mod wc;
