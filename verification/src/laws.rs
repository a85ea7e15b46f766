//! What the operations are for, said of their inputs and results.
pub mod hosts;
pub mod images;
pub mod machines;
pub mod registry;
pub mod settings;
pub mod trees;
pub mod words;
