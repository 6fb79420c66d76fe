use std::borrow::Cow;

use p1689::r5::builders::{self, UniqueBy};
use p1689::r5::parsers::{dep_file, ParseStream};
use p1689::r5::{ModuleDesc, RequiredModuleDescLookupMethod};
use p1689::stream::State;
use p1689::datagen::arbitrary_lookup_method;
use p1689::util::count_escaped_strings;

fn parse(text: &str) -> p1689::r5::DepFile<'_> {
    let mut stream = ParseStream::new("test.ddi", text.as_bytes(), State::default());
    match dep_file(&mut stream) {
        Ok(file) => file,
        Err(err) => panic!("{:?} at {:?}", err.error, err.context()),
    }
}

#[test]
fn dep_file_parses_every_field() {
    let text = r#"{
        "version": 1,
        "revision": 7,
        "rules": [
            {
                "work-directory": "build",
                "primary-output": "foo.o",
                "outputs": ["foo.d", "foo.gcm"],
                "provides": [
                    {
                        "logical-name": "foo",
                        "is-interface": false,
                        "compiled-module-path": "foo.gcm"
                    }
                ],
                "requires": [
                    {
                        "logical-name": "<vector>",
                        "source-path": "/usr/include/vector",
                        "unique-on-source-path": true,
                        "lookup-method": "include-angle"
                    },
                    {
                        "logical-name": "bar"
                    }
                ]
            }
        ]
    }"#;
    let file = parse(text);
    assert_eq!(1, file.version);
    assert_eq!(Some(7), file.revision);
    assert_eq!(1, file.rules.len());
    let rule = &file.rules[0];
    assert_eq!(Some("\"build\""), rule.work_directory.as_deref());
    assert_eq!(Some("\"foo.o\""), rule.primary_output.as_deref());
    assert_eq!(vec!["\"foo.d\"", "\"foo.gcm\""], rule.outputs.iter().map(|o| o.as_ref()).collect::<Vec<_>>());
    assert_eq!(1, rule.provides.len());
    assert!(!rule.provides[0].is_interface);
    assert_eq!("\"foo\"", rule.provides[0].desc.logical_name());
    assert!(matches!(&rule.provides[0].desc, ModuleDesc::ByLogicalName { compiled_module_path: Some(c), .. } if c == "\"foo.gcm\""));
    assert_eq!(2, rule.requires.len());
    assert_eq!(RequiredModuleDescLookupMethod::IncludeAngle, rule.requires[0].lookup_method);
    assert!(matches!(&rule.requires[0].desc, ModuleDesc::BySourcePath { source_path, .. } if source_path == "\"/usr/include/vector\""));
    assert_eq!(RequiredModuleDescLookupMethod::ByName, rule.requires[1].lookup_method);
    assert_eq!("\"bar\"", rule.requires[1].desc.logical_name());
}

#[test]
fn dep_file_defaults_of_absent_fields() {
    let file = parse(r#"{ "version": 0, "rules": [ { "requires": [ { "logical-name": "m" } ] } ] }"#);
    assert_eq!(None, file.revision);
    let rule = &file.rules[0];
    assert!(rule.work_directory.is_none());
    assert!(rule.primary_output.is_none());
    assert!(rule.outputs.is_empty());
    assert!(rule.provides.is_empty());
    assert_eq!(RequiredModuleDescLookupMethod::ByName, rule.requires[0].lookup_method);
    assert!(matches!(
        &rule.requires[0].desc,
        ModuleDesc::ByLogicalName { source_path: None, compiled_module_path: None, unique_on_source_path: None, .. }
    ));
}

#[test]
fn dep_file_provided_modules_say_whether_they_are_interfaces() {
    let text = r#"{ "version": 0, "rules": [ { "provides": [ { "logical-name": "m" } ] } ] }"#;
    let mut stream = ParseStream::new("test.ddi", text.as_bytes(), State::default());
    let err = dep_file(&mut stream).unwrap_err();
    assert!(matches!(err.error, p1689::stream::ErrorKind::MissingField { field: "is-interface" }));
    assert_eq!((1, 66), err.context());
}

#[test]
fn dep_file_borrows_unless_a_string_is_escaped() {
    let text = r#"{ "version": 1, "rules": [ { "primary-output": "a\tb.o", "outputs": ["c.o"] } ] }"#;
    let file = parse(text);
    assert_eq!(Some("\"a\tb.o\""), file.rules[0].primary_output.as_deref());
    assert!(matches!(file.rules[0].primary_output, Some(Cow::Owned(_))));
    assert!(matches!(file.rules[0].outputs[0], Cow::Borrowed(_)));
    assert_eq!(count_escaped_strings(text).1, file.count_copies());
    assert_eq!(0, file.count_escapes_total());
}

#[test]
fn dep_file_counts_backslashes_left_in_strings() {
    let file = parse(r#"{ "version": 1, "rules": [ { "primary-output": "a\\b.o" } ] }"#);
    assert_eq!(Some("\"a\\b.o\""), file.rules[0].primary_output.as_deref());
    assert_eq!(1, file.count_escapes_total());
    assert_eq!(1, file.count_copies());
}

#[test]
fn builders_fill_in_the_defaults() {
    let file = builders::DepFile::new().build();
    assert_eq!(1, file.version);
    assert_eq!(None, file.revision);
    assert!(file.rules.is_empty());
    let info = builders::DepInfo::new().build();
    assert!(info.work_directory.is_none() && info.primary_output.is_none());
    assert!(info.outputs.is_empty() && info.provides.is_empty() && info.requires.is_empty());
}

#[test]
fn builders_keep_what_was_set() {
    let provided = builders::ProvidedModuleDesc::new(UniqueBy::LogicalName { source_path: None }, Cow::Borrowed("foo"))
        .is_interface(false)
        .build();
    assert!(!provided.is_interface);
    assert_eq!("foo", provided.desc.logical_name());
    let required = builders::RequiredModuleDesc::new(
        UniqueBy::SourcePath { source_path: Cow::Borrowed("bar.cppm") },
        Cow::Borrowed("bar"),
    )
    .lookup_method(RequiredModuleDescLookupMethod::IncludeQuote)
    .build();
    assert_eq!(RequiredModuleDescLookupMethod::IncludeQuote, required.lookup_method);
    assert!(matches!(&required.desc, ModuleDesc::BySourcePath { source_path, .. } if source_path == "bar.cppm"));
    let info = builders::DepInfo::new()
        .primary_output(Cow::Borrowed("foo.o"))
        .provides(vec![provided])
        .requires_modules(vec![required])
        .build();
    assert_eq!(Some("foo.o"), info.work_directory.as_deref());
    assert!(info.primary_output.is_none());
    assert_eq!(1, info.provides.len());
    assert_eq!(1, info.requires.len());
    let file = builders::DepFile::new().version(2).revision(3).rules(vec![info]).build();
    assert_eq!((2, Some(3), 1), (file.version, file.revision, file.rules.len()));
}

#[test]
fn lookup_method_defaults_to_by_name() {
    assert_eq!(RequiredModuleDescLookupMethod::ByName, RequiredModuleDescLookupMethod::default());
}

#[test]
fn lookup_methods_are_written_quoted() {
    assert_eq!("\"by-name\"", RequiredModuleDescLookupMethod::ByName.to_string());
    assert_eq!("\"include-angle\"", RequiredModuleDescLookupMethod::IncludeAngle.to_string());
    assert_eq!("\"include-quote\"", RequiredModuleDescLookupMethod::IncludeQuote.to_string());
}

#[test]
fn lookup_methods_drawn_from_coins() {
    let mut u = arbitrary::Unstructured::new(&[1]);
    assert_eq!(RequiredModuleDescLookupMethod::ByName, arbitrary_lookup_method(&mut u));
    let mut u = arbitrary::Unstructured::new(&[0, 1]);
    assert_eq!(RequiredModuleDescLookupMethod::IncludeAngle, arbitrary_lookup_method(&mut u));
    let mut u = arbitrary::Unstructured::new(&[0, 0]);
    assert_eq!(RequiredModuleDescLookupMethod::IncludeQuote, arbitrary_lookup_method(&mut u));
}

#[test]
fn dep_file_without_backslashes_copies_nothing() {
    let text = r#"{ "version": 1, "revision": 0, "rules": [ { "work-directory": "/w", "primary-output": "a.o", "outputs": ["a.d"], "provides": [ { "logical-name": "m", "source-path": "m.cc", "is-interface": true } ], "requires": [ { "logical-name": "n", "lookup-method": "include-quote" } ] } ] }"#;
    let file = parse(text);
    assert_eq!(0, file.count_copies());
    assert_eq!(0, file.count_escapes_total());
    assert!(matches!(file.rules[0].primary_output, Some(Cow::Borrowed(_))));
    assert!(matches!(file.rules[0].outputs[0], Cow::Borrowed(_)));
    assert!(matches!(file.rules[0].work_directory, Some(Cow::Borrowed(_))));
}

#[test]
fn only_escaped_strings_are_copied_in_fixed_files() {
    let texts = [
        r#"{ "version": 1, "rules": [ { "primary-output": "a\u{e9}b.o", "provides": [ { "logical-name": "m\tn", "is-interface": true } ], "requires": [ { "logical-name": "plain" } ] } ] }"#,
        r#"{ "version": 1, "rules": [ { "work-directory": "/w\"q", "primary-output": "x.o", "outputs": ["y\/z", "w"] }, { "primary-output": "\u{1F4AF}.o" } ] }"#,
        r#"{ "version": 1, "rules": [ { "primary-output": "p.o", "requires": [ { "logical-name": "n", "source-path": "\u{73}.cc", "lookup-method": "by-name" } ] } ] }"#,
    ];
    for text in texts {
        let file = parse(text);
        let escaped = count_escaped_strings(text).1;
        assert!(escaped > 0);
        assert_eq!(escaped, file.count_copies());
    }
}
