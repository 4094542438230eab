pub mod varint;
pub mod varlong;
pub mod vec_sized;
pub mod vec_unsized;
