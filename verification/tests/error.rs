use d3j::Error;

fn code_of(err: &Error) -> Option<String> {
    Some(err.code().to_string())
}

fn help_of(err: &Error) -> Option<String> {
    err.help().map(|h| h.to_string())
}

#[test]
fn errors_render_with_diagnostic_codes() {
    let err = Error::UnknownLanguage { path: "x.zig".into() };
    assert!(err.message().contains("x.zig"));
    assert_eq!(code_of(&err).as_deref(), Some("d3j::unknown_language"));
    assert_eq!(
        help_of(&err).as_deref(),
        Some("pass --lang; supported: rust, java, json")
    );
}

#[test]
fn parse_error_renders_path_and_language() {
    let err = Error::Parse { path: "x.rs".into(), lang: "rust".into() };
    assert!(err.message().contains("x.rs"));
    assert!(err.message().contains("rust"));
    assert_eq!(code_of(&err).as_deref(), Some("d3j::parse"));
    assert_eq!(
        help_of(&err).as_deref(),
        Some("structural merge requires syntactically valid inputs")
    );
}

#[test]
fn io_error_renders_path_and_source() {
    let source = std::io::Error::other("permission denied");
    let err = Error::Io { path: "x.json".into(), source };
    let rendered = err.message();
    assert!(rendered.contains("x.json"));
    assert!(rendered.contains("permission denied"));
    assert_eq!(code_of(&err).as_deref(), Some("d3j::io"));
    assert!(err.source().is_some());
}

#[test]
fn errors_without_a_cause_have_no_source() {
    let err = Error::Parse { path: "x.rs".into(), lang: "rust".into() };
    assert!(err.source().is_none());
    assert_eq!(err.message(), "x.rs does not parse as rust");
    let unknown = Error::UnknownLanguage { path: "x.zig".into() };
    assert_eq!(unknown.message(), "cannot detect language for x.zig");
    assert!(unknown.source().is_none());
}
