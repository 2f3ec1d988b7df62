//! Fully-homomorphic-encryption primitives over the discretized torus.
//!
//! The crate provides the cryptographic kernel of an FHE scheme: wrapping
//! fixed-point ("torus") arithmetic, polynomials modulo `X^N + 1` with two
//! multiplication algorithms proved equivalent, random generators for secret
//! keys and encryption noise, LWE/GLWE encryption and decryption, and the
//! bootstrapping (blind-rotation) algorithm built on top of them.

pub mod params;
pub mod torus;
pub mod polynomial;
pub mod random;
pub mod lwe;
pub mod glwe;
pub mod bootstrap;
