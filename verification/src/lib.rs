//! Turns a stream of noisy bits into printable passwords drawn from a
//! configurable character set: a bit-level accumulation buffer, a compact
//! byte-set representation for character sets, a character-set specification
//! parser, and a generator that decodes each completed block of entropy into
//! one password.

pub mod bignum;
pub mod bit_vec;
pub mod byte_set;
pub mod charset;
pub mod gen;
pub mod generator;
pub mod params;
pub mod sample;
