//! An in-memory record store backing an exam and certification workflow.
//!
//! Users register under a caller identity, administrators manage exam
//! content, students submit answers and receive a graded certificate, and a
//! category index answers lookups of stored questions by label. The caller
//! identity and the clock are supplied by the surrounding transport layer as
//! plain values; everything here is pure in-memory logic.
//!
//! Every operation carries a contract over the mathematical views of the
//! stores: `counter` issues ids, `store` keeps keyed records, `grading`
//! scores submissions, and `service` ties them together behind the
//! role-gated operation surface.

pub mod counter;
pub mod grading;
pub mod service;
pub mod store;
pub mod types;
