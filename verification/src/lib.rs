pub mod codec;
pub mod ids;
pub mod object;
pub mod repo;
pub mod store;
pub mod utf8;
pub mod zlib;
