use blitzscript_core::discovery::makefile::parse;
use blitzscript_core::discovery::SourceType;

const FIXTURE: &str = "\
.PHONY: build test clean

# A plain comment, not a target.
build: ## Compile the project
\tcargo build --release

test:
\tcargo test

deploy-prod: build ## Ship it
\t./deploy.sh

%.o: %.c
\t$(CC) -c $<

VERSION := 1.2.3

clean:
\trm -rf target
";

#[test]
fn extracts_real_targets_only() {
    let cmds = parse(FIXTURE, "/repo", "/repo");
    let names: Vec<&str> = cmds.iter().map(|c| c.name.as_str()).collect();

    assert!(names.contains(&"build"));
    assert!(names.contains(&"test"));
    assert!(names.contains(&"deploy-prod"));
    assert!(names.contains(&"clean"));

    assert!(!names.contains(&".PHONY"));
    assert!(!names.iter().any(|n| n.contains('%')));
    assert!(!names.contains(&"VERSION"));
    assert_eq!(cmds.len(), 4);
}

#[test]
fn captures_doc_comments_and_invocation() {
    let cmds = parse(FIXTURE, "/repo", "/repo");
    let build = cmds.iter().find(|c| c.name == "build").unwrap();
    assert_eq!(build.invocation, "make build");
    assert_eq!(build.description.as_deref(), Some("Compile the project"));
    assert_eq!(build.source, SourceType::Make);

    let test = cmds.iter().find(|c| c.name == "test").unwrap();
    assert_eq!(test.description, None);
}

#[test]
fn variable_assignment_is_not_a_target() {
    let cmds = parse("CC := gcc\nCFLAGS = -O2\n", "/r", "/r");
    assert!(cmds.is_empty());
}

#[test]
fn targets_keep_declaration_order_and_fields() {
    let cmds = parse(FIXTURE, "/repo", "/work");
    let names: Vec<&str> = cmds.iter().map(|c| c.name.as_str()).collect();
    assert_eq!(names, vec!["build", "test", "deploy-prod", "clean"]);
    for c in &cmds {
        assert_eq!(c.repo, "/repo");
        assert_eq!(c.cwd, "/work");
        assert_eq!(c.invocation, format!("make {}", c.name));
    }
    let deploy = cmds.iter().find(|c| c.name == "deploy-prod").unwrap();
    assert_eq!(deploy.description.as_deref(), Some("Ship it"));
}

#[test]
fn first_declaration_wins() {
    let cmds = parse("a: ## first\na: ## second\n", "/r", "/r");
    assert_eq!(cmds.len(), 1);
    assert_eq!(cmds[0].description.as_deref(), Some("first"));
}

#[test]
fn colon_forms() {
    // White space before the colon, a colon at the end of the line, and a
    // double colon are targets; `:=` is not.
    let cmds = parse("a  : x\nb:\nc::\nd:=1\ne :=2\n", "/r", "/r");
    let names: Vec<&str> = cmds.iter().map(|c| c.name.as_str()).collect();
    assert_eq!(names, vec!["a", "b", "c"]);
}

#[test]
fn indented_and_symbol_led_lines_are_not_targets() {
    let cmds = parse(" a:\n\tb:\n_c:\n-d:\n", "/r", "/r");
    assert!(cmds.is_empty());
}

#[test]
fn crlf_line_endings() {
    let cmds = parse("build: ## Compile\r\ntest:\r\n", "/r", "/r");
    assert_eq!(cmds.len(), 2);
    assert_eq!(cmds[0].description.as_deref(), Some("Compile"));
}

#[test]
fn doc_comment_edge_cases() {
    // Nothing after `##`: no description.
    let cmds = parse("a: ##", "/r", "/r");
    assert_eq!(cmds[0].description, None);
    // Only white space after `##`: the last white-space character.
    let cmds = parse("a: ##   ", "/r", "/r");
    assert_eq!(cmds[0].description.as_deref(), Some(" "));
    // Inner white space is kept; surrounding white space is not.
    let cmds = parse("a: ##  x  y \t", "/r", "/r");
    assert_eq!(cmds[0].description.as_deref(), Some("x  y"));
    // A third `#` belongs to the description.
    let cmds = parse("a: ###x", "/r", "/r");
    assert_eq!(cmds[0].description.as_deref(), Some("#x"));
}

#[test]
fn empty_text_has_no_targets() {
    assert!(parse("", "/r", "/r").is_empty());
}

#[test]
fn make_ids_are_stable() {
    let cmds = parse("test:\n", "/r", "/r");
    assert_eq!(cmds[0].id, "make-a1b1d0dbb255f140");
    let again = parse("test: ## now documented\n", "/other-repo", "/r");
    assert_eq!(again[0].id, cmds[0].id);
}

#[test]
fn joined_texts_parse_as_their_parts() {
    let t1 = "build: ## one\nclean:\n";
    let t2 = "build: ## two\ntest: ## three\n";
    let joined = format!("{}{}", t1, t2);
    let whole: Vec<(String, Option<String>)> = parse(&joined, "/r", "/r")
        .into_iter()
        .map(|c| (c.name, c.description))
        .collect();
    let first: Vec<(String, Option<String>)> = parse(t1, "/r", "/r")
        .into_iter()
        .map(|c| (c.name, c.description))
        .collect();
    let mut expected = first.clone();
    for (name, description) in parse(t2, "/r", "/r").into_iter().map(|c| (c.name, c.description)) {
        if !first.iter().any(|(n, _)| *n == name) {
            expected.push((name, description));
        }
    }
    assert_eq!(whole, expected);
    assert_eq!(
        whole,
        vec![
            ("build".to_string(), Some("one".to_string())),
            ("clean".to_string(), None),
            ("test".to_string(), Some("three".to_string())),
        ]
    );
}
