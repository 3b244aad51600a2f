//! Binds a document tree of strings, numbers, booleans, dates, arrays and
//! tables to a target shape, pulling values through cursors and handing back
//! whatever the shape did not consume.

pub mod decoder;
pub mod error;
pub mod laws;
pub mod model;
pub mod shape;
pub mod value;
