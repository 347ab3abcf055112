pub mod context;
pub mod env;
pub mod fs;
pub mod path;
pub mod picker;
