pub mod config;
pub mod covering;
pub mod kakoune;
pub mod language;
pub mod parser;
pub mod range;
pub mod request;
pub mod round_trip;
pub mod select;
pub mod syntax;
pub mod text;
pub mod tree;
