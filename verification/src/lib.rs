//! Verified building blocks of a software-defined-radio flow graph:
//! binary-digit codecs, run-length coding, stream processors, bit-vector
//! packing and the wiring of process networks.
pub mod bits;
pub mod runs;
pub mod network;
pub mod oblw;
pub mod kpn;
pub mod unpackers;
pub mod outlet;
pub mod vidsink;
pub mod streams;
pub mod readings;
pub mod sensors;
