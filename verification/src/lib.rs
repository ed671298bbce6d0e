//! The arithmetic kernel of a proving system over the Pasta curves:
//! polynomial evaluation, interpolation and division over the field, the
//! radix-2 transform over field elements and curve points, multi-scalar
//! multiplication, and the partition of work among a fixed number of workers.
//!
//! Field elements and curve points are held as their canonical bytes. The
//! field and group operations are `halo2curves`'; what is built on them is
//! verified against contracts stated over integers modulo the field's prime.

pub mod dft;
pub mod fft;
pub mod field;
pub mod lagrange;
pub mod layers;
pub mod partition;
pub mod points;
pub mod poly;
pub mod util;
