pub mod io;
pub mod render;
