pub mod bitmap;
pub mod decode;
pub mod encode;
pub mod laws;
pub mod tree;
