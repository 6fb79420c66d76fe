use p1689::compiler::{CompilerError, CompilerFamily};

#[test]
fn compiler_family_tests_in_order() {
    assert!(matches!(CompilerFamily::from_family_tests(true, true, true), Ok(CompilerFamily::Gnu)));
    assert!(matches!(CompilerFamily::from_family_tests(false, true, true), Ok(CompilerFamily::Clang)));
    assert!(matches!(CompilerFamily::from_family_tests(false, false, true), Ok(CompilerFamily::Msvc)));
    assert!(matches!(CompilerFamily::from_family_tests(false, false, false), Err(CompilerError::UnknownFamily)));
}

#[test]
fn compiler_error_message() {
    assert_eq!("Could not detect compiler family", CompilerError::UnknownFamily.message());
}
