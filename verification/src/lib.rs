pub mod entropy;
pub mod resource;
pub mod store;
pub mod strace;
pub mod text;
pub mod wasi;
pub mod wasi_spec;
pub mod env;
pub mod specz;
pub mod preview1;
pub mod strategy;
pub mod diff;
pub mod witx;
pub mod witx_doc;
