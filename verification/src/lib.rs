//! Core of a disruption classifier: from the recorded signals of a plasma
//! discharge to the feature matrix of a support vector machine, and the
//! protocol by which discharges are collected for training.
//!
//! Measured values travel through the library as the 64-bit patterns of
//! double-precision numbers. Ordering them is integer work and is done here
//! (`doubles`); arithmetic on them is supplied by the caller (`arithmetic`).

pub mod api;
pub mod arithmetic;
pub mod dataset;
pub mod doubles;
pub mod health;
pub mod identifiers;
pub mod prediction;
pub mod signals;
pub mod tables;
pub mod text;
pub mod training;
