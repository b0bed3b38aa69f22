//! Montgomery arithmetic: a modular space for one odd modulus, and the
//! elements that live in it.
pub mod elt;
pub mod laws;
pub mod lemmas;
pub mod space;

pub use elt::Elt;
pub use space::Space;
