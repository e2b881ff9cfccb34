//! Model files: element types, tensor metadata and the safetensors header.

pub mod dtype;
pub mod header_laws;
pub mod json;
pub mod safetensors;
pub mod types;
