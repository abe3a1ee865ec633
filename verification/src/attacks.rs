//! Solvers for the discrete logarithm: given `g` and `q = k * g`, find `k`.

pub mod bsgs;
pub mod bsgs_laws;
pub mod glv_laws;
pub mod pollard_rho;
pub mod pollard_rho_laws;
