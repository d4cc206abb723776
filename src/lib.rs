pub mod text;
pub mod dictionary;
pub mod container;
