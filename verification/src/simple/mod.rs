//! A plain participant, known by its name.

pub mod node;
