use llzk_spec::diagnostic::{CompileError, Diagnostic, Diagnostics};

#[test]
fn compile_error_displays_multiple_diagnostics_on_separate_lines() {
    let error = CompileError::Diagnostics(Diagnostics::from_vec(vec![
        Diagnostic::new("first.spec", "first failure".to_string(), None),
        Diagnostic::new("second.spec", "second failure".to_string(), None),
    ]));

    assert_eq!(
        error.display(),
        "first.spec: first failure\nsecond.spec: second failure"
    );
}
