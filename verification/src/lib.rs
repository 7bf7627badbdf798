//! A small RSA cryptosystem on fixed-width integers, with its number theory
//! proved: greatest common divisors, modular inverses, modular powers,
//! Fermat's little theorem, and the cipher built from them.

pub mod cipher;
pub mod fermat;
pub mod gcd;
pub mod inverse;
pub mod keygen;
pub mod modexp;
pub mod primes;

pub use cipher::{checked_decrypt, decrypt, encrypt, EXP};
pub use gcd::gcd;
pub use inverse::mod_inverse;
pub use keygen::genkey_step;
pub use modexp::modexp;
