//! Turns a round chain that was cut into a LaBRADOR statement and witness, with
//! the checks that both parties run on them.
//!
//! [`export`] holds the two parties' entry points, [`check`] and [`labrador`]
//! the checks, [`session`] the order of the calls into LaBRADOR, and
//! [`soundness`] and [`relation`] what is guaranteed of the whole. What each
//! operation does, in terms of what goes in and what comes out, is stated in
//! [`dimensions`], [`placement`], [`handover`], [`acceptance`], [`outcome`],
//! [`encoding`], [`algebra`], [`wording`] and [`contents`].

pub mod acceptance;
pub mod algebra;
pub mod check;
pub mod codec;
pub mod config;
pub mod contents;
pub mod dimensions;
pub mod encoding;
pub mod export;
pub mod handover;
pub mod labrador;
pub mod layout;
pub mod modular;
pub mod negacyclic;
pub mod outcome;
pub mod placement;
pub mod public;
pub mod r64;
pub mod readiness;
pub mod relation;
pub mod ring;
pub mod session;
pub mod soundness;
pub mod statement;
pub mod structure;
pub mod sums;
pub mod text;
pub mod witness;
pub mod wording;
