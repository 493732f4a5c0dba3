//! Readers for the CRI archive formats (CPK with its UTF tables and
//! CRILAYLA compression), PAC archives, BC7 textures and BML meshes,
//! working on in-memory byte buffers.

pub mod error;
pub mod cursor;
pub mod packet;
pub mod enums;
pub mod utf;
pub mod crilayla;
pub mod texture;
pub mod decimal;
pub mod tree;
pub mod cpk;
pub mod pac;
pub mod bml;
pub mod hash;
pub mod extract;
