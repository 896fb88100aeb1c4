//! Front-end model of a binary analysis toolchain: a bit-precise value
//! algebra (bit-vectors and addresses with width-adapting arithmetic),
//! byte regions with endian-aware bit-level access, a typed micro-op IR
//! with register-alias normalisation, branch classification, and the
//! block-level bookkeeping of a lifting pipeline.

pub mod address;
pub mod aliases;
pub mod block;
pub mod bv;
pub mod ecode;
pub mod effect;
pub mod expr;
pub mod location;
pub mod phi;
pub mod entity;
pub mod id;
pub mod lift;
pub mod mem;
pub mod oracles;
pub mod project;
pub mod region;
pub mod types;
pub mod var;
