//! A discrete-log polynomial commitment scheme over the Vesta curve.
//!
//! The library holds a structured reference string (a basis of curve points
//! and one blinding point), commits to polynomials given by their
//! coefficients or by their evaluations on a power-of-two domain, expands
//! folding challenges into the coefficients of the b-polynomial, and checks
//! batches of accumulator commitments against their challenges.
//!
//! Field and curve arithmetic is done by the arkworks crates; every call
//! into them goes through a small function whose contract is assumed, and
//! everything built on top of those is proved.

pub mod accumulator;
pub mod b_poly;
pub mod commitment;
pub mod error;
pub mod evaluations;
pub mod field;
pub mod group;
pub mod record;
pub mod srs;

pub use accumulator::caml_pasta_fp_urs_batch_accumulator_check;
pub use b_poly::{b_poly_coefficients, caml_pasta_fp_urs_b_poly_commitment};
pub use commitment::PolyComm;
pub use error::SrsError;
pub use evaluations::{caml_pasta_fp_urs_commit_evaluations, caml_pasta_fp_urs_lagrange_commitment};
pub use field::Scalar;
pub use group::GroupElement;
pub use record::{read_record, write_record};
pub use srs::{caml_pasta_fp_urs_create, caml_pasta_fp_urs_h, Srs};
