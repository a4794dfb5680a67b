pub mod extension;
mod kleene;
pub mod oracle;
pub mod strategy;

pub use kleene::{kleene_local, value_indices};
