pub mod text;
pub mod order;
pub mod ir;
pub mod classify;
pub mod collect;
pub mod builder;
pub mod settings;
pub mod driver;
pub mod callbacks;
pub mod laws;
pub mod guarantees;
