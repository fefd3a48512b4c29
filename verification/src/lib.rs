pub mod cache;
pub mod index;
pub mod lit;
pub mod markdown;
pub mod parse;
pub mod render;
pub mod resolve;
pub mod store;
pub mod strutil;
pub mod wiki;
