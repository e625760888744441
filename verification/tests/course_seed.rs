use demo_app::courses::{chapter_slug, detect_block_type, slugify, slugify_lowered, split_blocks, split_chapitres};

fn s(x: &str) -> String {
    x.to_string()
}

#[test]
fn slugs_of_titles() {
    assert_eq!(slugify("Hello World"), "hello-world");
    assert_eq!(slugify("Généralités & Tests!"), "generalites-et-tests");
    assert_eq!(slugify("  Foo -- Bar  "), "foo-bar");
    assert_eq!(slugify("Box<dyn Trait> (avancé)"), "boxdyn-trait-avance");
    assert_eq!(slugify("snake_case/path"), "snake-case-path");
    assert_eq!(slugify(&"a".repeat(100)), "a".repeat(80));
}

#[test]
fn slug_cut_may_end_on_dash() {
    let title = format!("{} b", "a".repeat(79));
    let slug = slugify(&title);
    assert_eq!(slug, format!("{}-", "a".repeat(79)));
    assert_ne!(slugify_lowered(&slug), slug);
}

#[test]
fn slug_of_slug_is_itself() {
    let slug = slugify("Closures & itérateurs");
    assert_eq!(slug, "closures-et-iterateurs");
    assert_eq!(slugify_lowered(&slug), slug);
}

#[test]
fn block_types() {
    assert_eq!(detect_block_type("  ```rust\nx\n```"), "code");
    assert_eq!(detect_block_type("| a | b |\n|---|---|"), "table");
    assert_eq!(detect_block_type("|a\nb"), "text");
    assert_eq!(detect_block_type("- item"), "list");
    assert_eq!(detect_block_type("* item"), "list");
    assert_eq!(detect_block_type("1. first"), "list");
    assert_eq!(detect_block_type("> note"), "warning");
    assert_eq!(detect_block_type("plain"), "text");
    assert_eq!(detect_block_type(""), "text");
}

#[test]
fn chapters_of_a_course() {
    let c = split_chapitres(
        "# Course\nintro\n## Objectifs\n- a\n## Basics\nline1\n\nline2\n## Empty\n\n## Table of contents\nx",
    );
    assert_eq!(c, vec![(s("Basics"), s("line1\n\nline2"))]);
    assert_eq!(split_chapitres("## TABLE DES MATIÈRES\nx\n## Next\ny"), vec![(s("Next"), s("y"))]);
    assert_eq!(split_chapitres("no chapter"), vec![]);
}

#[test]
fn blocks_of_a_chapter() {
    let b = split_blocks("Intro line\nsecond\n\n```rs\nlet x = 1;\n```\n- a\n- b");
    assert_eq!(
        b,
        vec![
            (None, s("Intro line\nsecond"), "text"),
            (None, s("```rs\nlet x = 1;\n```"), "code"),
            (None, s("- a\n- b"), "list"),
        ]
    );
    let h = split_blocks("### A\nalpha\n### B\n\n### C\n| x |");
    assert_eq!(h, vec![(Some(s("A")), s("alpha"), "text"), (Some(s("C")), s("| x |"), "table")]);
    let open = split_blocks("```\nunclosed\nstill");
    assert_eq!(open, vec![(None, s("```\nunclosed\nstill"), "code")]);
}

#[test]
fn chapter_slugs() {
    assert_eq!(chapter_slug("generics", "Les Traits"), "generics-les-traits");
}

#[test]
fn slugs_are_lowercase_and_stable() {
    for title in ["A", "HTTP Routing & URLs", "Ownership / Borrowing", "ÉTÉ 2024", "x_Y_z"] {
        let slug = slugify(title);
        assert!(slug.chars().all(|c| c.is_ascii_lowercase() || c.is_ascii_digit() || c == '-'));
        assert_eq!(slugify(&slug), slug);
    }
    assert_eq!(slugify("A"), "a");
    assert_eq!(slugify("HTTP Routing & URLs"), "http-routing-et-urls");
}

#[test]
fn blocks_keep_every_line_of_text() {
    let raw = "Intro line\n  indented more\n\n```rust\nlet x = 1;\n```\n### Part\n- item\n\n> note\n### Empty\n\ntail";
    let blocks = split_blocks(raw);
    for line in raw.lines() {
        let t = line.trim();
        if t.is_empty() || line.starts_with("### ") {
            continue;
        }
        assert!(blocks.iter().any(|b| b.1.contains(t)), "line lost: {t}");
    }
}
