pub mod effects;
pub mod layout;
pub mod term;
pub mod types;
pub mod value;
