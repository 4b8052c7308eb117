//! The exact core of a lattice-based signature scheme over the ring of
//! polynomials modulo `x^n + 1` and the prime `q = 12289`.
//!
//! * [`ntt`] and [`ntt_constants`]: the number-theoretic transform, its root
//!   tables, and the ring operations that go through it;
//! * [`ntrugen`]: exact ring arithmetic over the integers for key
//!   generation (Karatsuba products, conjugate, field norm, lift, extended
//!   gcd);
//! * [`rng`]: the seeded keystream generator;
//! * [`samplerz`]: the integer steps of the discrete Gaussian sampler;
//! * [`encoding`]: the compressed form of signatures;
//! * [`common`] and [`falcon`]: the modulus, splitting and weaving of
//!   polynomials, and the sizes of the scheme;
//! * [`poly`], [`modq`], [`evaluation`] and [`descent`]: the mathematics
//!   that the contracts are stated in, and the laws that hold between the
//!   operations.
//!
//! Every function states what it returns in terms of a mathematical model,
//! and every such statement is proved.

pub mod common;
pub mod descent;
pub mod encoding;
pub mod evaluation;
pub mod falcon;
pub mod modq;
pub mod ntrugen;
pub mod ntt;
pub mod ntt_constants;
pub mod poly;
pub mod rng;
pub mod samplerz;
