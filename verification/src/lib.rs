//! A Rescue-style block cipher over the scalar field of BN256, synthesized
//! into a PLONK constraint system while it is computed.
//!
//! The cipher works on a state of three field elements. A round multiplies
//! the state by a Cauchy matrix, raises every element to the fifth power or
//! to the power that undoes it, and adds a subkey. The key schedule is the
//! same round function, run on the key.
//!
//! - [`field`] models the arithmetic of the field and holds cleartext
//!   elements.
//! - [`circuit`] holds the constraint system and the numbers bound to its
//!   variables.
//! - [`cipher_generator`] draws the parameters and builds the matrix, its
//!   inverse and the S-boxes.
//! - [`enc_dec`] binds parameters into a circuit, derives subkeys, encrypts
//!   and decrypts.
//! - [`round_trip`] proves that decryption undoes encryption, and
//!   encryption decryption.
//! - [`trace`] says which variables the cipher adds to a constraint system,
//!   one after the other.
//! - [`algebra`], [`number_theory`], [`primality`] and [`certificate`] hold
//!   the mathematics that the proofs rest on, down to the proof that the
//!   order of the field is prime.

pub mod algebra;
pub mod certificate;
pub mod cipher_generator;
pub mod circuit;
pub mod enc_dec;
pub mod errors;
pub mod field;
pub mod number_theory;
pub mod primality;
pub mod round_trip;
pub mod trace;
