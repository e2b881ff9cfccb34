//! Byte-level Hilbert-curve visualisation: the pure logic behind the renderer.

pub mod address_laws;
pub mod choice_laws;
pub mod cli;
pub mod color;
pub mod compose;
pub mod deploy;
pub mod diff;
pub mod diff_laws;
pub mod download;
pub mod format;
pub mod geometry;
pub mod hashing;
pub mod hf_cli;
pub mod hf_upload;
pub mod hf_url;
pub mod hilbert3d;
pub mod hub_laws;
pub mod image_laws;
pub mod json_diff;
pub mod label;
pub mod layout;
pub mod match_laws;
pub mod order;
pub mod outline;
pub mod path;
pub mod rect_laws;
pub mod registry;
pub mod single;
pub mod source;
pub mod source_laws;
pub mod tensor_diff;
pub mod tensor_diff_laws;
pub mod tensor_match;
pub mod text;
pub mod text_laws;
pub mod throttle;
pub mod transfer_laws;
