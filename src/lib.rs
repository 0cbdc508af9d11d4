//! A small HTTP toolkit: a request parser, a trie router, a chunked response
//! renderer and a MIME resolver, each with a verified contract.

pub mod text;
pub mod table;
pub mod mime;
pub mod render;
pub mod request;
pub mod router;

pub use mime::Mime;
pub use render::{frame_len, Render, Response, not_found, render_bytes, response_head, take_content_type};
pub use request::{Data, Method, Request};
pub use router::{answer, Handler, Urls};
pub use table::Table;
