//! Framing of HTTP/1.1 messages: a request parser over raw bytes and a
//! response serializer, both stated against byte- and character-level models.

pub mod decimal;
pub mod headers;
pub mod request;
pub mod response;
pub mod text;
