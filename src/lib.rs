//! Core of a Vorbis I decoder, stated and proved with Verus.
//!
//! The identification and setup headers are parsed into decode tables
//! (codebooks, floors, residues, mappings, modes) whose cross references are
//! checked. Each audio packet is then read up to its spectrum: the packet
//! header with its mode and window shape, each channel's floor (with the
//! piecewise floor's curve drawn as inverse dB indices), the non-zero
//! propagation over coupled channels, and the codebook entries of every
//! residue partition. The lapping state that decides how many samples a
//! packet completes is kept by the decoder. The floating-point stages
//! (vector lookup, coupling, IMDCT, windowing) stay with the caller.

pub mod bits;
pub mod error;
pub mod ident;
pub mod mapping;
pub mod codebook;
pub mod huffman;
pub mod floor;
pub mod floor1_curve;
pub mod residue;
pub mod setup;
pub mod layout;
pub mod decoder;
pub mod laws;
