//! Loan schedule planning for amortised-cost (effective interest) accounting.
//!
//! The verified part of the library covers the integer bookkeeping of the
//! schedule: splitting row sequences into loans and amendments, joining the
//! payment and disbursement tables on their loan identifiers, placing dated
//! transactions on a daily grid and planning each amendment's window.

pub mod errors;
pub mod ranges;
pub mod schedule;
pub mod tables;
pub mod borrowings;
pub mod plan;
pub mod report;
