//! Compiles a compact description of a powerline prompt into text that zsh evaluates.
//!
//! A descriptor such as `(white;blue)$(pwd)>` names colours, a value and a closing glyph
//! for one or more segments. [`part`] cuts descriptors into segments, [`value`] resolves
//! the value expressions, [`prompt`] holds the state that runs from segment to segment,
//! [`render`] turns segments into prompt text, and [`params`] reads the argument list
//! and puts the output lines together.

pub mod error;
pub mod params;
pub mod part;
pub mod prompt;
pub mod render;
pub mod text;
pub mod value;
