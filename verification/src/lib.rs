//! A small engine for styling and laying out documents: a stylesheet is
//! matched against a document tree, the cascade gives each element its
//! property values, the styled tree becomes a tree of boxes, and block
//! layout gives each box its place and size.
//!
//! Lengths are whole pixels, held in `i64`. The solver computes each length
//! exactly and brings it into the range of `i64` when it stores it.

pub mod css;
pub mod dom;
pub mod html;
pub mod layout;
pub mod painting;
pub mod parser;
pub mod strmap;
pub mod style;
pub mod text;
