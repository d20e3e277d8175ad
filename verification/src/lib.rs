//! A power-sum quACK: a compact, subtractive summary of a multiset of 32-bit
//! identifiers over the prime field of order 4294967291. Subtracting the
//! sketch of what a receiver saw from the sketch of what a sender sent leaves
//! a sketch that can be decoded into the identifiers that went missing, as
//! long as no more than a threshold number of them did.
//!
//! [`PowerSumQuack`] is the sketch; [`montgomery::MontgomeryQuack`] and
//! [`power_table::PowerTableQuack`] hold the same state in ways that make
//! putting identifiers in cheaper. [`DecodedQuack`] says where in a log the
//! missing identifiers are. [`algebra`] states what holds of sketches
//! whatever is put into them, and [`packet_buffer`] is the receive buffer of
//! a server that asks for missing packets again.
pub mod algebra;
pub mod arithmetic;
pub mod decoded_quack;
pub mod montgomery;
pub mod newton;
pub mod packet_buffer;
pub mod power_table;
pub mod quack;
pub mod wire;

pub use decoded_quack::{DecodedQuack, IdentifierLog};
pub use quack::{Identifier, PowerSumQuack, Quack};
