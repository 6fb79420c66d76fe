//! The project's directory, and the objects that building it gives.

use vstd::prelude::*;
use crate::string::Utf8Path;

verus! {

/// The directory of the project, under the examples.
pub fn src_proj() -> (p: &'static Utf8Path)
    ensures
        p@ == "gnu-make"@,
{
    "gnu-make"
}

/// The object files that building the project gives, in ascending order.
pub fn expected_outputs() -> (v: Vec<&'static Utf8Path>)
    ensures
        v.len() == 5,
        v[0]@ == "bar.o"@,
        v[1]@ == "foo.o"@,
        v[2]@ == "foo/part1.o"@,
        v[3]@ == "foo/part2.o"@,
        v[4]@ == "main.o"@,
{
    vec!["bar.o", "foo.o", "foo/part1.o", "foo/part2.o", "main.o"]
}

} // verus!
