//! Fixtures: a small project of C++ modules, as dependency files.

/// The dependency files of the project, and what ordering them gives.
pub mod corpus;
