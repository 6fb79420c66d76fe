//! Each dependency file of the project: its path and its JSON text.

use vstd::prelude::*;
use crate::string::Utf8Path;

verus! {

/// The JSON text of `bar.ddi`.
pub const BAR_JSON: &'static str = r#"{
                "rules": [
                    {
                        "primary-output": "bar.o",
                        "provides": [
                            {
                                "logical-name": "bar",
                                "is-interface": true
                            }
                        ],
                        "requires": [
                        ]
                    }
                ],
                "version": 0,
                "revision": 0
            }"#;

/// The JSON text of `foo-part1.ddi`.
pub const FOO_PART1_JSON: &'static str = r#"{
                "rules": [
                    {
                        "primary-output": "foo-part1.o",
                        "provides": [
                            {
                                "logical-name": "foo:part1",
                                "is-interface": true
                            }
                        ],
                        "requires": [
                        ]
                    }
                ],
                "version": 0,
                "revision": 0
            }"#;

/// The JSON text of `foo-part2.ddi`.
pub const FOO_PART2_JSON: &'static str = r#"{
                "rules": [
                    {
                        "primary-output": "foo-part2.o",
                        "provides": [
                            {
                                "logical-name": "foo:part2",
                                "is-interface": true
                            }
                        ],
                        "requires": [
                        ]
                    }
                ],
                "version": 0,
                "revision": 0
            }"#;

/// The JSON text of `foo.ddi`.
pub const FOO_JSON: &'static str = r#"{
                "rules": [
                    {
                        "primary-output": "foo.o",
                        "provides": [
                            {
                                "logical-name": "foo",
                                "is-interface": true
                            }
                        ],
                        "requires": [
                            {
                                "logical-name": "bar"
                            },
                            {
                                "logical-name": "foo:part2"
                            },
                            {
                                "logical-name": "foo:part1"
                            }
                        ]
                    }
                ],
                "version": 0,
                "revision": 0
            }"#;

/// The JSON text of `main.ddi`.
pub const MAIN_JSON: &'static str = r#"{
                "rules": [
                    {
                        "primary-output": "main.o",
                        "requires": [
                            {
                                "logical-name": "foo"
                            },
                            {
                                "logical-name": "bar"
                            }
                        ]
                    }
                ],
                "version": 0,
                "revision": 0
            }"#;

/// The JSON text of `foo.ddi`.
pub const FOO_CYCLE_JSON: &'static str = r#"{
                "rules": [
                    {
                        "primary-output": "foo.o",
                        "provides": [
                            {
                                "logical-name": "foo",
                                "is-interface": true
                            }
                        ],
                        "requires": [
                            {
                                "logical-name": "bar"
                            }
                        ]
                    }
                ],
                "version": 0,
                "revision": 0
            }"#;

/// The JSON text of `bar.ddi`.
pub const BAR_CYCLE_JSON: &'static str = r#"{
                "rules": [
                    {
                        "primary-output": "bar.o",
                        "provides": [
                            {
                                "logical-name": "bar",
                                "is-interface": true
                            }
                        ],
                        "requires": [
                            {
                                "logical-name": "foo"
                            }
                        ]
                    }
                ],
                "version": 0,
                "revision": 0
            }"#;

/// The dependency file `bar.ddi` and its text.
pub fn bar() -> (r: (&'static Utf8Path, &'static str))
    ensures
        r.0@ == "bar.ddi"@,
        r.1@ == BAR_JSON@,
{
    ("bar.ddi", BAR_JSON)
}

/// The dependency file `foo-part1.ddi` and its text.
pub fn foo_part1() -> (r: (&'static Utf8Path, &'static str))
    ensures
        r.0@ == "foo-part1.ddi"@,
        r.1@ == FOO_PART1_JSON@,
{
    ("foo-part1.ddi", FOO_PART1_JSON)
}

/// The dependency file `foo-part2.ddi` and its text.
pub fn foo_part2() -> (r: (&'static Utf8Path, &'static str))
    ensures
        r.0@ == "foo-part2.ddi"@,
        r.1@ == FOO_PART2_JSON@,
{
    ("foo-part2.ddi", FOO_PART2_JSON)
}

/// The dependency file `foo.ddi` and its text.
pub fn foo() -> (r: (&'static Utf8Path, &'static str))
    ensures
        r.0@ == "foo.ddi"@,
        r.1@ == FOO_JSON@,
{
    ("foo.ddi", FOO_JSON)
}

/// The dependency file `main.ddi` and its text.
pub fn main() -> (r: (&'static Utf8Path, &'static str))
    ensures
        r.0@ == "main.ddi"@,
        r.1@ == MAIN_JSON@,
{
    ("main.ddi", MAIN_JSON)
}

/// The dependency file `foo.ddi` and its text.
pub fn foo_cycle() -> (r: (&'static Utf8Path, &'static str))
    ensures
        r.0@ == "foo.ddi"@,
        r.1@ == FOO_CYCLE_JSON@,
{
    ("foo.ddi", FOO_CYCLE_JSON)
}

/// The dependency file `bar.ddi` and its text.
pub fn bar_cycle() -> (r: (&'static Utf8Path, &'static str))
    ensures
        r.0@ == "bar.ddi"@,
        r.1@ == BAR_CYCLE_JSON@,
{
    ("bar.ddi", BAR_CYCLE_JSON)
}

} // verus!
