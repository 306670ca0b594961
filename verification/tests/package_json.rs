use blitzscript_core::discovery::package_json::{
    detect_runner, invocation_for, parse, PackageJson, Runner,
};
use blitzscript_core::discovery::SourceType;

/// Decodes a `package.json` text into the part the launcher reads, as the
/// app's serde decoding does: an object whose optional `scripts` member maps
/// names to string bodies. Anything else does not decode.
fn decode(text: &str) -> Option<PackageJson> {
    let value: serde_json::Value = serde_json::from_str(text).ok()?;
    let object = value.as_object()?;
    let mut scripts = Vec::new();
    if let Some(map) = object.get("scripts") {
        for (name, body) in map.as_object()? {
            scripts.push((name.clone(), body.as_str()?.to_string()));
        }
    }
    Some(PackageJson { scripts })
}

#[test]
fn parses_scripts_map() {
    let json = r#"{
        "name": "demo",
        "scripts": {
            "build": "vite build",
            "test": "vitest run",
            "blank": ""
        }
    }"#;
    let cmds = parse(&decode(json), "/repo", "/repo/app", Runner::Npm);

    assert_eq!(cmds.len(), 3);

    let build = cmds.iter().find(|c| c.name == "build").unwrap();
    assert_eq!(build.invocation, "npm run build");
    assert_eq!(build.description.as_deref(), Some("vite build"));
    assert_eq!(build.source, SourceType::Npm);
    assert_eq!(build.cwd, "/repo/app");

    let blank = cmds.iter().find(|c| c.name == "blank").unwrap();
    assert_eq!(blank.description, None);
}

#[test]
fn missing_scripts_key_is_empty_not_error() {
    let json = r#"{ "name": "demo", "version": "1.0.0" }"#;
    let cmds = parse(&decode(json), "/repo", "/repo", Runner::Npm);
    assert!(cmds.is_empty());
}

#[test]
fn malformed_json_yields_nothing() {
    let cmds = parse(&decode("{ not json"), "/repo", "/repo", Runner::Npm);
    assert!(cmds.is_empty());
}

#[test]
fn lockfile_detection_picks_runner() {
    // Lockfile presence as the shell observes it: (pnpm-lock.yaml, yarn.lock).
    assert_eq!(detect_runner(false, false), Runner::Npm);
    assert_eq!(detect_runner(true, false), Runner::Pnpm);
    assert_eq!(detect_runner(false, true), Runner::Yarn);
    assert_eq!(detect_runner(true, true), Runner::Pnpm);

    let json = r#"{ "scripts": { "dev": "vite" } }"#;
    let cmds = parse(&decode(json), "/r", "/r", detect_runner(true, false));
    assert_eq!(cmds[0].invocation, "pnpm run dev");
}

#[test]
fn invocation_follows_runner() {
    assert_eq!(invocation_for(Runner::Npm, "build"), "npm run build");
    assert_eq!(invocation_for(Runner::Pnpm, "dev"), "pnpm run dev");
    assert_eq!(invocation_for(Runner::Yarn, "lint"), "yarn run lint");
}

#[test]
fn scripts_keep_order_and_blank_bodies_have_no_description() {
    let doc = Some(PackageJson {
        scripts: vec![
            ("a".to_string(), "  \t ".to_string()),
            ("b".to_string(), " x ".to_string()),
        ],
    });
    let cmds = parse(&doc, "/repo", "/repo/sub", Runner::Yarn);
    assert_eq!(cmds.len(), 2);
    assert_eq!(cmds[0].name, "a");
    assert_eq!(cmds[0].description, None);
    assert_eq!(cmds[1].name, "b");
    assert_eq!(cmds[1].description.as_deref(), Some(" x "));
    assert_eq!(cmds[1].invocation, "yarn run b");
    assert_eq!(cmds[1].repo, "/repo");
}

#[test]
fn undecoded_document_has_no_commands() {
    assert!(parse(&None, "/r", "/r", Runner::Npm).is_empty());
}

#[test]
fn npm_ids_are_stable() {
    let doc = Some(PackageJson { scripts: vec![("build".to_string(), "vite build".to_string())] });
    let cmds = parse(&doc, "/elsewhere", "/repo", Runner::Pnpm);
    assert_eq!(cmds[0].id, "npm-ae4f982b4453335f");
}

#[test]
fn ordered_scripts_give_ascending_distinct_names() {
    let json = r#"{ "scripts": { "zeta": "z", "alpha": "a", "mid": "m" } }"#;
    let cmds = parse(&decode(json), "/r", "/r", Runner::Npm);
    let names: Vec<&str> = cmds.iter().map(|c| c.name.as_str()).collect();
    assert_eq!(names, vec!["alpha", "mid", "zeta"]);
    for w in names.windows(2) {
        assert!(w[0] < w[1]);
    }
}
