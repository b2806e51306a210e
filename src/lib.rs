pub mod codec;
pub mod dna;
pub mod executor;
pub mod matchreplace;
pub mod pattern;
pub mod render;
pub mod rna;
pub mod rope;
pub mod search;
pub mod template;

pub use crate::executor::DnaExecutor;
pub use crate::render::{RnaRenderer, HEIGHT, WIDTH};
pub use crate::rna::Rna;
