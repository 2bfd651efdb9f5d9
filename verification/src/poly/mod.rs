pub mod arithmetic;
pub mod decomposition;
pub mod evaluation;
pub mod modular;
pub mod ntt32;
pub mod ntt64;
pub mod transform;

pub use ntt32::{Residues, Ring32, Rns};
pub use ntt64::Ring64;
