pub mod generate;
pub mod index;
pub mod layout;
pub mod resolve;
pub mod types;
pub mod value;
pub mod zero;
pub mod slang;
pub mod read;
