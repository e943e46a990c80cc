pub mod backend;
pub mod completion;
pub mod misc;
pub mod quote;
pub mod types;
