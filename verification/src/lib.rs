//! Exact conservation-law derivation and trace evidence for typed quantitative systems.
pub mod rational;
pub mod text;
pub mod ident;
pub mod entries;
pub mod law;
pub mod trace;
pub mod format;
pub mod test_kinds;
pub mod kind;
pub mod dynamics;
pub mod exact;
pub mod system;
pub mod linear;
pub mod table;
pub mod carrier;
pub mod record;
pub mod evidence;
pub mod certificate;
pub mod suite;
pub mod message;
pub mod settlement;
pub mod laws;
pub mod witness;
pub mod declarations;
pub mod permutation;
pub mod exchange;
pub mod engine;
