pub mod value;
pub mod text;
pub mod diff;
pub mod render;
pub mod laws;
pub mod poll;
