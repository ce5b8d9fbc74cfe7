//! An arbitrary-precision modular-arithmetic toolkit and the textbook RSA
//! cryptosystem built on it, together with two small independent modules: a
//! phrase-component vocabulary and a word-substitution utility.

pub mod bignum;
pub mod components;
pub mod cryptosystem;
pub mod fermat;
pub mod math;
pub mod to_plural;
pub mod toilet;
