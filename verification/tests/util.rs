use p1689::util::{count_escaped_strings, count_escapes};

#[test]
fn count_escapes_empty() {
    let str = "";
    assert_eq!(0, count_escapes(str));
    assert_eq!((0, 0), count_escaped_strings(str));
}

#[test]
fn count_escapes_single_backslash() {
    let str = "\\";
    assert_eq!(0, count_escapes(str));
    assert_eq!((0, 0), count_escaped_strings(str));
}

#[test]
fn count_escapes_sans_escapes_short() {
    let str = "\n";
    assert_eq!(0, count_escapes(str));
    assert_eq!((0, 0), count_escaped_strings(str));
}

#[test]
fn count_escapes_sans_escapes() {
    let str = "foo\nbar";
    assert_eq!(0, count_escapes(str));
    assert_eq!((0, 0), count_escaped_strings(str));
}

#[test]
fn count_escapes_with_one_escapes_short() {
    let str = "\\n";
    assert_eq!(1, count_escapes(str));
    assert_eq!((0, 0), count_escaped_strings(str));
}

#[test]
fn count_escapes_with_one_escapes() {
    let str = "foo\\nbar";
    assert_eq!(1, count_escapes(str));
    assert_eq!((0, 0), count_escaped_strings(str));
}

#[test]
fn count_escapes_with_two_escapes() {
    let str = "foo\\nbar\\u{1f4af}baz";
    assert_eq!(2, count_escapes(str));
    assert_eq!((0, 0), count_escaped_strings(str));
}

#[test]
fn count_escaped_strings_zero_quoted() {
    let str = r#"
        foo
    "#;
    assert_eq!(0, count_escapes(str));
    assert_eq!((0, 0), count_escaped_strings(str));
}

#[test]
fn count_escaped_strings_zero_quoted_one_escape() {
    let str = r#"
        foo\nbar
    "#;
    assert_eq!(1, count_escapes(str));
    assert_eq!((0, 0), count_escaped_strings(str));
}

#[test]
fn count_escaped_strings_one_quoted_zero_escapes() {
    let str = r#"
        "foo"
    "#;
    assert_eq!(0, count_escapes(str));
    assert_eq!((1, 0), count_escaped_strings(str));
}

#[test]
fn count_escaped_strings_one_quoted_one_escapes() {
    let str = r#"
        "foo\nbar"
    "#;
    assert_eq!(1, count_escapes(str));
    assert_eq!((1, 1), count_escaped_strings(str));
}

#[test]
fn count_escaped_strings_two_quoted_three_escapes() {
    let str = r#"
        "foo\nbar"%^&*
        "foo\nbar\u{1f4af}baz"
    "#;
    assert_eq!(3, count_escapes(str));
    assert_eq!((2, 2), count_escaped_strings(str));
}

#[test]
fn count_escaped_strings_three_quoted_three_escapes() {
    let str = r#"
        "foo\nbar"%^&*
        "foo\nbar\u{1f4af}baz"
        "qux"
    "#;
    assert_eq!(3, count_escapes(str));
    assert_eq!((3, 2), count_escaped_strings(str));
}
