pub mod count;
pub mod fibonacci;
