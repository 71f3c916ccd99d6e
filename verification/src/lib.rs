//! Arithmetic circuits that attest a Celestia data commitment: the protobuf
//! encoding of a Tendermint validator, the data-root tuples of a window of
//! blocks under one Merkle root, and the hash chain that links the newest
//! header of the window back to a trusted one.
//!
//! A circuit is a list of gates over numbered wires, together with the
//! calls of the gadgets that it leaves to others: the Merkle hashing and
//! the check of a header's height. A gate defines the value of its wire
//! from the wires before it, or takes it from the witness, and may
//! constrain it. Each function that extends a circuit states, for every
//! assignment of values to the wires, what the new wires hold and exactly
//! when the new constraints are met.
//!
//! - [`field`]: the arithmetic of the field in which wires take their values.
//! - [`circuit`]: wires, gates, gadget calls, and what it means to satisfy them.
//! - [`witness`]: the values of all wires from those of the inputs.
//! - [`u32`], [`vars`]: wires by what they carry, and operations on them.
//! - [`merkle`]: the gadgets that a circuit calls and does not build.
//! - [`varint`]: the varint buffer of a value, and what holds of it.
//! - [`validator`]: the encoding of a validator's voting power and record.
//! - [`commitment`]: the data commitment and the chain of headers.

pub mod field;
pub mod circuit;
pub mod witness;
pub mod u32;
pub mod vars;
pub mod merkle;
pub mod varint;
pub mod validator;
pub mod consts;
pub mod commitment;
