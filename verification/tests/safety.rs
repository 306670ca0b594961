use blitzscript_core::safety::{assess, assess_lowercased};

#[test]
fn flags_destructive_tokens() {
    assert!(assess("rm -rf build").escalate);
    assert!(assess("kubectl delete pod x").escalate);
    assert!(assess("terraform apply -auto-approve").escalate);
    assert!(assess("git push --force origin main").escalate);
}

#[test]
fn leaves_ordinary_commands_alone() {
    assert!(!assess("npm run build").escalate);
    assert!(!assess("make test").escalate);
    assert!(!assess("cargo check").escalate);
}

#[test]
fn match_is_case_insensitive() {
    assert!(assess("Terraform Destroy").escalate);
}

#[test]
fn matched_tokens_are_trimmed_and_in_list_order() {
    let a = assess("rm -rf build");
    assert_eq!(a.matched, vec!["rm -rf".to_string(), "rm".to_string()]);
    let a = assess("git push --force origin main");
    assert_eq!(a.matched, vec!["--force".to_string(), "push --force".to_string()]);
    let a = assess("DROP TABLE users");
    assert_eq!(a.matched, vec!["drop".to_string()]);
    assert!(assess("make test").matched.is_empty());
}

#[test]
fn extending_a_command_keeps_it_flagged() {
    assert!(assess("rm -rf x").escalate);
    assert!(assess("cd /tmp && rm -rf x; echo done").escalate);
}

#[test]
fn lowercased_matching_uses_the_given_patterns() {
    let patterns: Vec<String> = vec![
        "rm -rf", "rm ", "kubectl delete", "terraform apply", "terraform destroy", "drop ",
        "--force", "push --force",
    ]
    .into_iter()
    .map(String::from)
    .collect();
    // The haystack is taken as already lowercased: an upper-case command
    // does not match here.
    assert!(!assess_lowercased("RM -RF /", &patterns).escalate);
    assert!(assess_lowercased("rm -rf /", &patterns).escalate);
}

#[test]
fn ascii_case_does_not_change_the_assessment() {
    let lower = assess("git push --force && rm -rf x");
    let upper = assess("GIT PUSH --FORCE && RM -RF X");
    assert_eq!(lower.escalate, upper.escalate);
    assert_eq!(lower.matched, upper.matched);
}

#[test]
fn extending_a_command_keeps_its_matched_labels() {
    let short = assess("rm -rf x");
    let long = assess("cd /tmp && rm -rf x && kubectl delete pod y");
    for label in &short.matched {
        assert!(long.matched.contains(label));
    }
    assert!(long.matched.contains(&"kubectl delete".to_string()));
}
