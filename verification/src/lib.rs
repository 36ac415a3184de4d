//! HC-256 stream cipher with a buffered, seekable keystream applicator.

pub mod buf;
pub mod material;
pub mod stream;
pub mod tables;
mod wipe;
pub mod word;

pub use buf::BufHc256;
