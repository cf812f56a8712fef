//! A reactive document of typed entities whose properties hold small expressions.

pub mod decimal;
pub mod document;
pub mod laws;
pub mod loader;
pub mod parser;
pub mod pon;
pub mod pon_translations;
pub mod render;
pub mod round_trip;
pub mod system;
pub mod text;
