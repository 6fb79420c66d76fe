use p1689::r5::parsers::{dep_file, ParseStream};
use p1689::stream::State;

#[test]
#[should_panic(expected = "test.ddi:6:28: error: Duplicate field: `revision`\n")]
fn duplicate_field_revision() {
    let text = r#"{
                        "version": 1,
                        "revision": 0,
                        "rules": [
                        ],
                        "revision": 0,
                    }"#;
    let path = "test.ddi";
    let input = text.as_bytes();
    let state = State::default();
    let mut stream = ParseStream::new(path, input, state);
    if let Err(err) = dep_file(&mut stream) {
        panic!("{}", err.to_string());
    }
}

#[test]
#[should_panic(expected = "test.ddi:6:28: error: Duplicate field: `rules`\n")]
fn duplicate_field_rules() {
    let text = r#"{
                        "version": 1,
                        "revision": 0,
                        "rules": [
                        ],
                        "rules": [
                        ],
                    }"#;
    let path = "test.ddi";
    let input = text.as_bytes();
    let state = State::default();
    let mut stream = ParseStream::new(path, input, state);
    if let Err(err) = dep_file(&mut stream) {
        panic!("{}", err.to_string());
    }
}

#[test]
#[should_panic(expected = "test.ddi:6:27: error: Duplicate field: `version`\n")]
fn duplicate_field_version() {
    let text = r#"{
                        "version": 1,
                        "revision": 0,
                        "rules": [
                        ],
                        "version": 1,
                    }"#;
    let path = "test.ddi";
    let input = text.as_bytes();
    let state = State::default();
    let mut stream = ParseStream::new(path, input, state);
    if let Err(err) = dep_file(&mut stream) {
        panic!("{}", err.to_string());
    }
}

#[test]
#[should_panic(expected = "test.ddi:3:21: error: Missing field: `rules`\n")]
fn missing_field_rules() {
    let text = r#"{
                        "version": 1
                    }"#;
    let path = "test.ddi";
    let input = text.as_bytes();
    let state = State::default();
    let mut stream = ParseStream::new(path, input, state);
    if let Err(err) = dep_file(&mut stream) {
        panic!("{}", err.to_string());
    }
}

#[test]
#[should_panic(expected = "test.ddi:3:21: error: Missing field: `version`\n")]
fn missing_field_version() {
    let text = r#"{
                        "rules": []
                    }"#;
    let path = "test.ddi";
    let input = text.as_bytes();
    let state = State::default();
    let mut stream = ParseStream::new(path, input, state);
    if let Err(err) = dep_file(&mut stream) {
        panic!("{}", err.to_string());
    }
}

#[test]
#[should_panic(expected = "test.ddi:3:28: error: Failed parsing DepFile fields:\nexpected one of: { \"revision\", \"rules\", \"version\" }\n")]
fn mismatch_field_revision() {
    let text = r#"{
                        "version": 1,
                        "r#vision": 0,
                        "rules": [
                        ],
                    }"#;
    let path = "test.ddi";
    let input = text.as_bytes();
    let state = State::default();
    let mut stream = ParseStream::new(path, input, state);
    if let Err(err) = dep_file(&mut stream) {
        panic!("{}", err.to_string());
    }
}

#[test]
#[should_panic(expected = "test.ddi:4:28: error: Failed parsing DepFile fields:\nexpected one of: { \"revision\", \"rules\", \"version\" }\n")]
fn mismatch_field_rules() {
    let text = r#"{
                        "version": 1,
                        "revision": 0,
                        "r#les": [
                        ],
                    }"#;
    let path = "test.ddi";
    let input = text.as_bytes();
    let state = State::default();
    let mut stream = ParseStream::new(path, input, state);
    if let Err(err) = dep_file(&mut stream) {
        panic!("{}", err.to_string());
    }
}

#[test]
#[should_panic(expected = "test.ddi:2:27: error: Failed parsing DepFile fields:\nexpected one of: { \"revision\", \"rules\", \"version\" }\n")]
fn parsers_mismatch_field() {
    let text = r#"{
                        "bad": [],
                        "version": 1,
                        "revision": 0,
                        "rules": [
                        ],
                    }"#;
    let path = "test.ddi";
    let input = text.as_bytes();
    let state = State::default();
    let mut stream = ParseStream::new(path, input, state);
    if let Err(err) = dep_file(&mut stream) {
        panic!("{}", err.to_string());
    }
}

#[test]
#[should_panic(expected = "test.ddi:4:26: error: Failed parsing DepFile fields:\nexpected one of: { \"revision\", \"rules\", \"version\" }\n")]
fn parsers_mismatch_field_unquoted() {
    let text = r#"{
                        "version": 1,
                        "revision": 0,
                        bad: [],
                        "rules": [
                        ],
                    }"#;
    let path = "test.ddi";
    let input = text.as_bytes();
    let state = State::default();
    let mut stream = ParseStream::new(path, input, state);
    if let Err(err) = dep_file(&mut stream) {
        panic!("{}", err.to_string());
    }
}

#[test]
#[should_panic(expected = "test.ddi:7:35: error: Duplicate field: `outputs`\n")]
fn duplicate_field_outputs() {
    let text = r#"{
                        "version": 1,
                        "revision": 0,
                        "rules": [
                            {
                                "outputs": [],
                                "outputs": [],
                            }
                        ],
                    }"#;
    let path = "test.ddi";
    let input = text.as_bytes();
    let state = State::default();
    let mut stream = ParseStream::new(path, input, state);
    if let Err(err) = dep_file(&mut stream) {
        panic!("{}", err.to_string());
    }
}

#[test]
#[should_panic(expected = "test.ddi:7:37: error: Duplicate field: `primary_output`\n")]
fn duplicate_field_primary_output() {
    let text = r#"{
                        "version": 1,
                        "revision": 0,
                        "rules": [
                            {
                                "primary-output": "foo.cpp",
                                "primary-output": "foo.cpp"
                            }
                        ],
                    }"#;
    let path = "test.ddi";
    let input = text.as_bytes();
    let state = State::default();
    let mut stream = ParseStream::new(path, input, state);
    if let Err(err) = dep_file(&mut stream) {
        panic!("{}", err.to_string());
    }
}

#[test]
#[should_panic(expected = "test.ddi:7:37: error: Duplicate field: `provides`\n")]
fn duplicate_field_provides() {
    let text = r#"{
                        "version": 1,
                        "revision": 0,
                        "rules": [
                            {
                                "provides": [],
                                "provides": []
                            }
                        ],
                    }"#;
    let path = "test.ddi";
    let input = text.as_bytes();
    let state = State::default();
    let mut stream = ParseStream::new(path, input, state);
    if let Err(err) = dep_file(&mut stream) {
        panic!("{}", err.to_string());
    }
}

#[test]
#[should_panic(expected = "test.ddi:7:35: error: Duplicate field: `requires`\n")]
fn duplicate_field_requires() {
    let text = r#"{
                        "version": 1,
                        "revision": 0,
                        "rules": [
                            {
                                "requires": [],
                                "requires": []
                            }
                        ],
                    }"#;
    let path = "test.ddi";
    let input = text.as_bytes();
    let state = State::default();
    let mut stream = ParseStream::new(path, input, state);
    if let Err(err) = dep_file(&mut stream) {
        panic!("{}", err.to_string());
    }
}

#[test]
#[should_panic(expected = "test.ddi:7:35: error: Duplicate field: `work-directory`\n")]
fn duplicate_field_work_directory() {
    let text = r#"{
                        "version": 1,
                        "revision": 0,
                        "rules": [
                            {
                                "work-directory": "build",
                                "work-directory": "build"
                            }
                        ],
                    }"#;
    let path = "test.ddi";
    let input = text.as_bytes();
    let state = State::default();
    let mut stream = ParseStream::new(path, input, state);
    if let Err(err) = dep_file(&mut stream) {
        panic!("{}", err.to_string());
    }
}

#[test]
#[should_panic(expected = "test.ddi:6:37: error: Failed parsing DepInfo fields:\nexpected one of: { \"outputs\", \"primary-output\", \"provides\", \"requires\", \"work-directory\" }\n")]
fn mismatch_field_primary_output() {
    let text = r#"{
                        "version": 1,
                        "revision": 0,
                        "rules": [
                            {
                                "prxmary-output": "foo.cpp",
                                "provides": []
                            }
                        ],
                    }"#;
    let path = "test.ddi";
    let input = text.as_bytes();
    let state = State::default();
    let mut stream = ParseStream::new(path, input, state);
    if let Err(err) = dep_file(&mut stream) {
        panic!("{}", err.to_string());
    }
}

#[test]
#[should_panic(expected = "test.ddi:7:33: error: Failed parsing DepInfo fields:\nexpected one of: { \"outputs\", \"primary-output\", \"provides\", \"requires\", \"work-directory\" }\n")]
fn mismatch_field_provides() {
    let text = r#"{
                    "version": 1,
                    "revision": 0,
                    "rules": [
                        {
                            "primary-output": "foo.cpp",
                            "prxvides": []
                        }
                    ],
                }"#;
    let path = "test.ddi";
    let input = text.as_bytes();
    let state = State::default();
    let mut stream = ParseStream::new(path, input, state);
    if let Err(err) = dep_file(&mut stream) {
        panic!("{}", err.to_string());
    }
}

#[test]
#[should_panic(expected = "test.ddi:6:32: error: Failed parsing DepInfo fields:\nexpected one of: { \"outputs\", \"primary-output\", \"provides\", \"requires\", \"work-directory\" }\n")]
fn mismatch_field_pr() {
    let text = r#"{
                    "version": 1,
                    "revision": 0,
                    "rules": [
                        {
                            "px": []
                        }
                    ],
                }"#;
    let path = "test.ddi";
    let input = text.as_bytes();
    let state = State::default();
    let mut stream = ParseStream::new(path, input, state);
    if let Err(err) = dep_file(&mut stream) {
        panic!("{}", err.to_string());
    }
}

#[test]
fn parsers_mismatch_field_dep_info() {
    let text = r#"{
                    "version": 1,
                    "revision": 0,
                    "rules": [
                        {
                            "x": []
                        }
                    ],
                }"#;
    let path = "test.ddi";
    let input = text.as_bytes();
    let state = State::default();
    let mut stream = ParseStream::new(path, input, state);
    let err = dep_file(&mut stream).unwrap_err();
    assert_eq!("test.ddi:6:31: error: Failed parsing DepInfo fields:\nexpected one of: { \"outputs\", \"primary-output\", \"provides\", \"requires\", \"work-directory\" }\n", err.to_string());
}

#[test]
fn parsers_mismatch_field_unquoted_dep_info() {
    let text = r#"{
                    "version": 1,
                    "revision": 0,
                    "rules": [
                        {
                            primary-output: "foo.cpp"
                        }
                    ],
                }"#;
    let path = "test.ddi";
    let input = text.as_bytes();
    let state = State::default();
    let mut stream = ParseStream::new(path, input, state);
    let err = dep_file(&mut stream).unwrap_err();
    assert_eq!("test.ddi:6:30: error: Failed parsing DepInfo fields:\nexpected one of: { \"outputs\", \"primary-output\", \"provides\", \"requires\", \"work-directory\" }\n", err.to_string());
}

#[test]
#[should_panic(expected = "test.ddi:9:43: error: Duplicate field: `source-path`\n")]
fn parsers_duplicate_field_source_path() {
    let text = r#"{
                        "version": 1,
                        "revision": 0,
                        "rules": [
                            {
                                "provides": [
                                    {
                                        "source-path": "foo.cpp",
                                        "source-path": "foo.cpp"
                                    }
                                ]
                            }
                        ],
                    }"#;
    let path = "test.ddi";
    let input = text.as_bytes();
    let state = State::default();
    let mut stream = ParseStream::new(path, input, state);
    if let Err(err) = dep_file(&mut stream) {
        panic!("{}", err.to_string());
    }
}

#[test]
#[should_panic(expected = "test.ddi:9:43: error: Duplicate field: `compiled-module-path`\n")]
fn parsers_duplicate_field_compiled_module_path() {
    let text = r#"{
                        "version": 1,
                        "revision": 0,
                        "rules": [
                            {
                                "provides": [
                                    {
                                        "compiled-module-path": "foo.o",
                                        "compiled-module-path": "foo.o"
                                    }
                                ]
                            }
                        ],
                    }"#;
    let path = "test.ddi";
    let input = text.as_bytes();
    let state = State::default();
    let mut stream = ParseStream::new(path, input, state);
    if let Err(err) = dep_file(&mut stream) {
        panic!("{}", err.to_string());
    }
}

#[test]
#[should_panic(expected = "test.ddi:9:43: error: Duplicate field: `logical-name`\n")]
fn parsers_duplicate_field_logical_name() {
    let text = r#"{
                        "version": 1,
                        "revision": 0,
                        "rules": [
                            {
                                "provides": [
                                    {
                                        "logical-name": "foo",
                                        "logical-name": "foo"
                                    }
                                ]
                            }
                        ],
                    }"#;
    let path = "test.ddi";
    let input = text.as_bytes();
    let state = State::default();
    let mut stream = ParseStream::new(path, input, state);
    if let Err(err) = dep_file(&mut stream) {
        panic!("{}", err.to_string());
    }
}

#[test]
#[should_panic(expected = "test.ddi:9:43: error: Duplicate field: `unique-on-source-path`\n")]
fn parsers_duplicate_field_unique_on_source_path() {
    let text = r#"{
                        "version": 1,
                        "revision": 0,
                        "rules": [
                            {
                                "provides": [
                                    {
                                        "unique-on-source-path": false,
                                        "unique-on-source-path": false
                                    }
                                ]
                            }
                        ],
                    }"#;
    let path = "test.ddi";
    let input = text.as_bytes();
    let state = State::default();
    let mut stream = ParseStream::new(path, input, state);
    if let Err(err) = dep_file(&mut stream) {
        panic!("{}", err.to_string());
    }
}

#[test]
#[should_panic(expected = "test.ddi:9:43: error: Duplicate field: `is-interface`\n")]
fn duplicate_field_is_interface() {
    let text = r#"{
                        "version": 1,
                        "revision": 0,
                        "rules": [
                            {
                                "provides": [
                                    {
                                        "is-interface": false,
                                        "is-interface": false
                                    }
                                ]
                            }
                        ],
                    }"#;
    let path = "test.ddi";
    let input = text.as_bytes();
    let state = State::default();
    let mut stream = ParseStream::new(path, input, state);
    if let Err(err) = dep_file(&mut stream) {
        panic!("{}", err.to_string());
    }
}

#[test]
fn parsers_mismatch_field_provided() {
    let text = r#"{
                        "version": 1,
                        "revision": 0,
                        "rules": [
                            {
                                "provides": [
                                    {
                                        "x": []
                                    }
                                ]
                            }
                        ],
                    }"#;
    let path = "test.ddi";
    let input = text.as_bytes();
    let state = State::default();
    let mut stream = ParseStream::new(path, input, state);
    let err = dep_file(&mut stream).unwrap_err();
    assert_eq!("test.ddi:8:43: error: Failed parsing object fields:\nexpected one of: { \"compiled-module-path\", \"is-interface\", \"logical-name\", \"source-path\", \"unique-on-source-path\" }\n", err.to_string());
}

#[test]
fn parsers_mismatch_field_unquoted_provided() {
    let text = r#"{
                        "version": 1,
                        "revision": 0,
                        "rules": [
                            {
                                "provides": [
                                    {
                                        x: []
                                    }
                                ]
                            }
                        ],
                    }"#;
    let path = "test.ddi";
    let input = text.as_bytes();
    let state = State::default();
    let mut stream = ParseStream::new(path, input, state);
    let err = dep_file(&mut stream).unwrap_err();
    assert_eq!("test.ddi:8:42: error: Failed parsing object fields:\nexpected one of: { \"compiled-module-path\", \"is-interface\", \"logical-name\", \"source-path\", \"unique-on-source-path\" }\n", err.to_string());
}

#[test]
fn parsers_duplicate_field_source_path_required() {
    let text = r#"{
                        "version": 1,
                        "revision": 0,
                        "rules": [
                            {
                                "requires": [
                                    {
                                        "source-path": "foo.cpp",
                                        "source-path": "foo.cpp"
                                    }
                                ]
                            }
                        ],
                    }"#;
    let path = "test.ddi";
    let input = text.as_bytes();
    let state = State::default();
    let mut stream = ParseStream::new(path, input, state);
    let err = dep_file(&mut stream).unwrap_err();
    assert_eq!("test.ddi:9:43: error: Duplicate field: `source-path`\n", err.to_string());
}

#[test]
fn parsers_duplicate_field_compiled_module_path_required() {
    let text = r#"{
                        "version": 1,
                        "revision": 0,
                        "rules": [
                            {
                                "requires": [
                                    {
                                        "compiled-module-path": "foo.o",
                                        "compiled-module-path": "foo.o"
                                    }
                                ]
                            }
                        ],
                    }"#;
    let path = "test.ddi";
    let input = text.as_bytes();
    let state = State::default();
    let mut stream = ParseStream::new(path, input, state);
    let err = dep_file(&mut stream).unwrap_err();
    assert_eq!("test.ddi:9:43: error: Duplicate field: `compiled-module-path`\n", err.to_string());
}

#[test]
fn parsers_duplicate_field_logical_name_required() {
    let text = r#"{
                        "version": 1,
                        "revision": 0,
                        "rules": [
                            {
                                "requires": [
                                    {
                                        "logical-name": "foo",
                                        "logical-name": "foo"
                                    }
                                ]
                            }
                        ],
                    }"#;
    let path = "test.ddi";
    let input = text.as_bytes();
    let state = State::default();
    let mut stream = ParseStream::new(path, input, state);
    let err = dep_file(&mut stream).unwrap_err();
    assert_eq!("test.ddi:9:45: error: Duplicate field: `logical-name`\n", err.to_string());
}

#[test]
fn parsers_duplicate_field_unique_on_source_path_required() {
    let text = r#"{
                        "version": 1,
                        "revision": 0,
                        "rules": [
                            {
                                "requires": [
                                    {
                                        "unique-on-source-path": false,
                                        "unique-on-source-path": false
                                    }
                                ]
                            }
                        ],
                    }"#;
    let path = "test.ddi";
    let input = text.as_bytes();
    let state = State::default();
    let mut stream = ParseStream::new(path, input, state);
    let err = dep_file(&mut stream).unwrap_err();
    assert_eq!("test.ddi:9:43: error: Duplicate field: `unique-on-source-path`\n", err.to_string());
}

#[test]
#[should_panic(expected = "test.ddi:9:45: error: Duplicate field: `lookup-method`\n")]
fn duplicate_field_lookup_method() {
    let text = r#"{
                        "version": 1,
                        "revision": 0,
                        "rules": [
                            {
                                "requires": [
                                    {
                                        "lookup-method": "by-name",
                                        "lookup-method": "by-name"
                                    }
                                ]
                            }
                        ],
                    }"#;
    let path = "test.ddi";
    let input = text.as_bytes();
    let state = State::default();
    let mut stream = ParseStream::new(path, input, state);
    if let Err(err) = dep_file(&mut stream) {
        panic!("{}", err.to_string());
    }
}

#[test]
#[should_panic(expected = "test.ddi:8:45: error: Failed parsing object fields:\nexpected one of: { \"compiled-module-path\", \"logical-name\", \"lookup-method\", \"source-path\", \"unique-on-source-path\" }\n")]
fn mismatch_field_l() {
    let text = r#"{
                        "version": 1,
                        "revision": 0,
                        "rules": [
                            {
                                "requires": [
                                    {
                                        "lx": []
                                    }
                                ]
                            }
                        ],
                    }"#;
    let path = "test.ddi";
    let input = text.as_bytes();
    let state = State::default();
    let mut stream = ParseStream::new(path, input, state);
    if let Err(err) = dep_file(&mut stream) {
        panic!("{}", err.to_string());
    }
}

#[test]
fn parsers_mismatch_field_required() {
    let text = r#"{
                        "version": 1,
                        "revision": 0,
                        "rules": [
                            {
                                "requires": [
                                    {
                                        "x": []
                                    }
                                ]
                            }
                        ],
                    }"#;
    let path = "test.ddi";
    let input = text.as_bytes();
    let state = State::default();
    let mut stream = ParseStream::new(path, input, state);
    let err = dep_file(&mut stream).unwrap_err();
    assert_eq!("test.ddi:8:43: error: Failed parsing object fields:\nexpected one of: { \"compiled-module-path\", \"logical-name\", \"lookup-method\", \"source-path\", \"unique-on-source-path\" }\n", err.to_string());
}

#[test]
fn parsers_mismatch_field_unquoted_required() {
    let text = r#"{
                        "version": 1,
                        "revision": 0,
                        "rules": [
                            {
                                "requires": [
                                    {
                                        x: []
                                    }
                                ]
                            }
                        ],
                    }"#;
    let path = "test.ddi";
    let input = text.as_bytes();
    let state = State::default();
    let mut stream = ParseStream::new(path, input, state);
    let err = dep_file(&mut stream).unwrap_err();
    assert_eq!("test.ddi:8:42: error: Failed parsing object fields:\nexpected one of: { \"compiled-module-path\", \"logical-name\", \"lookup-method\", \"source-path\", \"unique-on-source-path\" }\n", err.to_string());
}

#[test]
#[should_panic(expected = "test.ddi:10:6: error: Failed parsing `LookupMethod`:\nexpected one of: { \"by-name\", \"include-angle\", \"include-quote\" }\n")]
fn mismatch_field_include() {
    let text = r#"{
                            "version": 1,
                            "revision": 0,
                            "rules": [
                                {
                                    "requires": [
                                        {
                                            "logical-name": "foo",
                                            "lookup-method": "invalid"
                                        }
                                    ]
                                }
                            ],
                        }"#;
    let path = "test.ddi";
    let input = text.as_bytes();
    let state = State::default();
    let mut stream = ParseStream::new(path, input, state);
    if let Err(err) = dep_file(&mut stream) {
        panic!("{}", err.to_string());
    }
}

#[test]
#[should_panic(expected = "test.ddi:9:64: error: Failed parsing `LookupMethod`:\nexpected one of: { \"by-name\", \"include-angle\", \"include-quote\" }\n")]
fn mismatch_field_by_name_include() {
    let text = r#"{
                            "version": 1,
                            "revision": 0,
                            "rules": [
                                {
                                    "requires": [
                                        {
                                            "logical-name": "foo",
                                            "lookup-method": "wrong"
                                        }
                                    ]
                                }
                            ],
                        }"#;
    let path = "test.ddi";
    let input = text.as_bytes();
    let state = State::default();
    let mut stream = ParseStream::new(path, input, state);
    if let Err(err) = dep_file(&mut stream) {
        panic!("{}", err.to_string());
    }
}

#[test]
fn parsers_mismatch_field_unquoted_lookup_method() {
    let text = r#"{
                            "version": 1,
                            "revision": 0,
                            "rules": [
                                {
                                    "requires": [
                                        {
                                            "logical-name": "foo",
                                            "lookup-method": bad
                                        }
                                    ]
                                }
                            ],
                        }"#;
    let path = "test.ddi";
    let input = text.as_bytes();
    let state = State::default();
    let mut stream = ParseStream::new(path, input, state);
    let err = dep_file(&mut stream).unwrap_err();
    assert_eq!("test.ddi:9:63: error: Failed parsing `LookupMethod`:\nexpected one of: { \"by-name\", \"include-angle\", \"include-quote\" }\n", err.to_string());
}
