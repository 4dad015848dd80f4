//! A small markup parser that builds a simplified document tree and renders
//! it as a JSON-shaped string.

pub mod chars;
pub mod dom;
pub mod html;
pub mod json;
