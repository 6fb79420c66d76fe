//! A project of five C++ sources: `bar`, the partitions `foo:part1`
//! and `foo:part2`, their primary interface `foo`, and `main`.

/// Each dependency file as a path and its JSON text.
pub mod item;
/// The project as the dependency texts that a scan produces.
pub mod dep_text;
/// The project as the source files that a scan reads.
pub mod src_file;
