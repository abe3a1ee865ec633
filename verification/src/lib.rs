//! Discrete logarithms on the curves `y^2 = x^3 + b` over a prime field.
//!
//! The curves of this family carry six automorphisms. The solvers here come in a
//! generic form and in a form that folds every point into the least member of its
//! automorphism class before it is stored or compared.
//!
//! - `math`: arithmetic modulo a prime, the group law of the curve, and the
//!   number theory that both rest on.
//! - `endomorphism`: the automorphisms, the orbit of a point and its least
//!   member.
//! - `attacks`: baby-step giant-step and Pollard's rho, each on points and on
//!   orbits, and what they find once the addition of points is known to be
//!   associative.
//! - `formal_verification`: fixed identities of secp256k1, put to the Z3
//!   solver.
//! - `error`: the ways in which a computation can fail.
//! - `text`: numbers in decimal, for what is handed out in words.

pub mod attacks;
pub mod endomorphism;
pub mod error;
pub mod formal_verification;
pub mod math;
pub mod text;
