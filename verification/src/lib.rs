//! Turns a photo into ASCII art: the verified core of the pipeline.
pub mod ascii;
pub mod clahe;
pub mod cli;
pub mod font;
pub mod mask;
pub mod pipeline;
pub mod render;
pub mod rgba;
pub mod text;
