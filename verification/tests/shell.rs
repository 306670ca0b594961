use blitzscript_core::commands::history_limit;
use blitzscript_core::db::{like_pattern, source_from_column};
use blitzscript_core::discovery::SourceType;

#[test]
fn history_limit_defaults_and_clamps() {
    assert_eq!(history_limit(None), 200);
    assert_eq!(history_limit(Some(50)), 50);
    assert_eq!(history_limit(Some(0)), 1);
    assert_eq!(history_limit(Some(-7)), 1);
    assert_eq!(history_limit(Some(5000)), 1000);
    assert_eq!(history_limit(Some(1000)), 1000);
}

#[test]
fn stored_source_reads_back() {
    assert_eq!(source_from_column("npm"), SourceType::Npm);
    assert_eq!(source_from_column("make"), SourceType::Make);
    assert_eq!(source_from_column("cargo"), SourceType::Npm);
    for s in [SourceType::Npm, SourceType::Make] {
        assert_eq!(source_from_column(s.as_str()), s);
    }
}

#[test]
fn history_filter_pattern() {
    assert_eq!(like_pattern("build"), "%build%");
    assert_eq!(like_pattern(""), "%%");
}
