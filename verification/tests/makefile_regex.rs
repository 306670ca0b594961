//! Differential tests: the Makefile grammar against the regular expressions
//! it is specified by, run with the `regex` crate.

use blitzscript_core::discovery::makefile::parse;
use regex::Regex;
use std::collections::HashSet;

/// Targets and descriptions as the two expressions select them.
fn by_regex(text: &str) -> Vec<(String, Option<String>)> {
    let target = Regex::new(r"^([a-zA-Z0-9][a-zA-Z0-9_.-]*)\s*:(?:[^=]|$)").unwrap();
    let doc = Regex::new(r"##\s*(.+?)\s*$").unwrap();
    let mut out = Vec::new();
    let mut seen = HashSet::new();
    for line in text.lines() {
        let caps = match target.captures(line) {
            Some(c) => c,
            None => continue,
        };
        let name = caps.get(1).unwrap().as_str();
        if name.starts_with('.') || name.contains('%') || !seen.insert(name.to_string()) {
            continue;
        }
        let description = doc
            .captures(line)
            .and_then(|c| c.get(1))
            .map(|m| m.as_str().to_string());
        out.push((name.to_string(), description));
    }
    out
}

fn by_parser(text: &str) -> Vec<(String, Option<String>)> {
    parse(text, "/r", "/r")
        .into_iter()
        .map(|c| (c.name, c.description))
        .collect()
}

#[test]
fn grammar_agrees_with_regex_on_hand_picked_lines() {
    let lines = [
        "build: ## Compile the project",
        "build:## x",
        "a:##",
        "a: ##",
        "a: ## ",
        "a: ##\t\t",
        "a: ###",
        "a: ####",
        "a: # # x",
        "a: ## x ## y",
        "a: ##\u{a0}x\u{3000}",
        "a\u{a0}: x",
        "a\u{2003}:",
        "a:=b",
        "a :=b",
        "a::",
        "a:\u{a0}=",
        "é: x",
        "aé: x",
        "a.b-c_d: ## dotted",
        "9lives:",
        ".PHONY: a",
        "%.o: %.c",
        "a%: b",
        "\ta:",
        "a:\r",
        "a: ## x\r",
        "",
        ":",
        "a",
    ];
    for line in lines {
        assert_eq!(by_parser(line), by_regex(line), "line {:?}", line);
    }
    let text = lines.join("\n");
    assert_eq!(by_parser(&text), by_regex(&text));
    let text = lines.join("\r\n");
    assert_eq!(by_parser(&text), by_regex(&text));
}

#[test]
fn grammar_agrees_with_regex_on_generated_lines() {
    let alphabet = [
        'a', 'Z', '7', '_', '.', '-', '%', ':', '=', '#', '#', ' ', '\t', '\u{a0}', '\u{2003}',
        '\r', 'x', 'é', '\u{85}', '\n',
    ];
    let mut seed: u64 = 0x2545_f491_4f6c_dd1d;
    let mut next = move || {
        seed ^= seed << 13;
        seed ^= seed >> 7;
        seed ^= seed << 17;
        seed
    };
    for _ in 0..4000 {
        let len = (next() % 14) as usize;
        let mut text = String::new();
        for _ in 0..len {
            text.push(alphabet[(next() % alphabet.len() as u64) as usize]);
        }
        assert_eq!(by_parser(&text), by_regex(&text), "text {:?}", text);
    }
}
