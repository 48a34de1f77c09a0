//! A preview of the cards as a web page: page rendering, image URLs and the
//! static files the page links to.
pub mod renderer;
pub mod server;
pub mod static_files;
pub mod types;
pub mod url_rewriting;

pub use types::{CardType, PreviewCard, PreviewData};
pub use url_rewriting::rewrite_image_urls;
