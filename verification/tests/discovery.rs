use blitzscript_core::discovery::{
    is_skipped_dir, manifest_source, nearest_repo_root, DiscoveredCommand, SourceType,
};

#[test]
fn source_type_text_roundtrip() {
    assert_eq!(SourceType::Npm.as_str(), "npm");
    assert_eq!(SourceType::Make.as_str(), "make");
    for s in [SourceType::Npm, SourceType::Make] {
        assert_eq!(SourceType::from_str(s.as_str()), Some(s));
    }
    assert_eq!(SourceType::from_str("NPM"), None);
    assert_eq!(SourceType::from_str(""), None);
}

#[test]
fn new_derives_id_from_identity() {
    let c = DiscoveredCommand::new(
        "/repo".into(),
        SourceType::Npm,
        "build".into(),
        Some("desc".into()),
        "npm run build".into(),
        "/repo".into(),
    );
    assert_eq!(c.id, "npm-ae4f982b4453335f");
    assert_eq!(c.repo, "/repo");
    assert_eq!(c.description.as_deref(), Some("desc"));

    // Same identity, different repo/description/invocation: same id.
    let d = DiscoveredCommand::new(
        "/x".into(),
        SourceType::Npm,
        "build".into(),
        None,
        "pnpm run build".into(),
        "/repo".into(),
    );
    assert_eq!(d.id, c.id);

    // Different source: different id.
    let m = DiscoveredCommand::new(
        "/repo".into(),
        SourceType::Make,
        "build".into(),
        None,
        "make build".into(),
        "/repo".into(),
    );
    assert_eq!(m.id, "make-4611f6ee8ca73e66");
}

#[test]
fn walk_prunes_heavy_directories() {
    for d in ["node_modules", ".git", "target", "dist"] {
        assert!(is_skipped_dir(d));
    }
    assert!(!is_skipped_dir("src"));
    assert!(!is_skipped_dir("Target"));
}

#[test]
fn manifests_are_recognised_by_name() {
    assert_eq!(manifest_source("package.json"), Some(SourceType::Npm));
    assert_eq!(manifest_source("Makefile"), Some(SourceType::Make));
    assert_eq!(manifest_source("makefile"), Some(SourceType::Make));
    assert_eq!(manifest_source("GNUmakefile"), Some(SourceType::Make));
    assert_eq!(manifest_source("package-lock.json"), None);
    assert_eq!(manifest_source("MAKEFILE"), None);
}

#[test]
fn nearest_git_ancestor_is_the_repo() {
    let dirs: Vec<String> = vec!["/r/a/b".into(), "/r/a".into(), "/r".into()];
    assert_eq!(nearest_repo_root(&dirs, &vec![false, true, true]), "/r/a");
    assert_eq!(nearest_repo_root(&dirs, &vec![true, false, true]), "/r/a/b");
    assert_eq!(nearest_repo_root(&dirs, &vec![false, false, false]), "/r/a/b");
}
