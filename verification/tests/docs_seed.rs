use demo_app::names::Named;
use demo_app::docs::{
    collect_section_pages, collect_section_pages_checked, collect_sections, doc_page_slug, extract_doc_links, extract_lead,
    extract_order, extract_title, is_index_file_name, normalize_link, parse_blocks,
    section_sort_order, section_theme, section_title, slug_to_urls, sort_difficulties,
    strip_github_anchors, LangEntry, PagePlace, SectionEntry, SectionTheme, SubEntry,
};

fn s(x: &str) -> String {
    x.to_string()
}

#[test]
fn anchors_are_removed() {
    assert_eq!(strip_github_anchors("Intro <a id=\"x\"></a>\n# T"), "Intro \n# T");
    assert_eq!(strip_github_anchors("a<a id=\"1\"></a>b<a id=\"2\">x</a>c"), "abc");
}

#[test]
fn lines_emptied_by_anchors_go() {
    assert_eq!(strip_github_anchors("a\n<a id='x'></a>\n\nb"), "a\n\nb");
    assert_eq!(strip_github_anchors("a\n\n<a id='x'></a>\n\nb"), "a\n\nb");
    assert_eq!(strip_github_anchors("<a id=\"top\"></a>\n# Title\ntext"), "# Title\ntext");
    assert_eq!(strip_github_anchors("a\n<a id=\"1\"></a>\n<a id=\"2\"></a>\nb"), "a\nb");
    assert_eq!(strip_github_anchors("a\n\n\nb"), "a\n\n\nb");
    assert_eq!(strip_github_anchors("a\n<a id=\"x\"></a>"), "a\n");
}

#[test]
fn unclosed_anchor_stays() {
    assert_eq!(strip_github_anchors("a<a id=b"), "a<a id=b");
    assert_eq!(strip_github_anchors("no anchors here"), "no anchors here");
}

#[test]
fn order_from_file_name() {
    assert_eq!(extract_order("01-installation.md"), 1);
    assert_eq!(extract_order("12-b-c.md"), 12);
    assert_eq!(extract_order("installation.md"), 99);
    assert_eq!(extract_order("-x.md"), 99);
    assert_eq!(extract_order("+7-a"), 7);
    assert_eq!(extract_order("99999999999-a"), 99);
    assert_eq!(extract_order("7"), 7);
}

#[test]
fn title_from_first_heading() {
    assert_eq!(extract_title("intro\n# Hello World  \nmore"), "Hello World");
    assert_eq!(extract_title("# # Double"), "Double");
    assert_eq!(extract_title("no heading\n## Sub"), "Sans titre");
    assert_eq!(extract_title("# Windows\r\nbody"), "Windows");
}

#[test]
fn lead_is_first_prose_line() {
    assert_eq!(
        extract_lead("# Title\n\nFirst sentence here.\n## Section"),
        Some(s("First sentence here."))
    );
    assert_eq!(extract_lead("# T\n## S\ntext"), None);
    assert_eq!(extract_lead("# T\n```\ncode\n```\n- item\n| a |\n  Lead  "), Some(s("Lead")));
    assert_eq!(extract_lead("before title\n# T"), None);
}

#[test]
fn blocks_of_a_page() {
    let blocks = parse_blocks(
        "# Title\nIntro text\n## Usage\nUse it\n## Voir aussi\nlinks\n## Code\n```rust\nx\n```",
    );
    assert_eq!(
        blocks,
        vec![
            (Some(s("Usage")), s("Use it"), s("Text")),
            (Some(s("Code")), s("```rust\nx\n```"), s("Code")),
        ]
    );
}

#[test]
fn table_of_contents_block() {
    let blocks = parse_blocks("# T\n## Sommaire\n- a\n- b\n## Part\nbody\n## Empty\n");
    assert_eq!(
        blocks,
        vec![(None, s("- a\n- b"), s("Sommaire")), (Some(s("Part")), s("body"), s("Text"))]
    );
}

#[test]
fn intro_with_table_or_code() {
    assert_eq!(parse_blocks("# T\nsome | table\n## A\nb").first(), Some(&(None, s("some | table"), s("text"))));
    assert_eq!(parse_blocks("Intro\n```\nc\n```"), vec![(None, s("Intro\n```\nc\n```"), s("code"))]);
    assert_eq!(parse_blocks("# T\n## NEXT STEPS\nx\n## IA\ny"), vec![]);
    assert_eq!(parse_blocks("# T\n## IA\nprompt"), vec![]);
    assert_eq!(parse_blocks("# T\n## Contents\n- a"), vec![(None, s("- a"), s("Sommaire"))]);
}

#[test]
fn section_themes() {
    assert_eq!(section_theme("orm"), SectionTheme::Database);
    assert_eq!(section_theme("env"), SectionTheme::Demarrage);
    assert_eq!(section_theme("flash"), SectionTheme::Web);
    assert_eq!(section_theme("session"), SectionTheme::Security);
    assert_eq!(section_theme("admin"), SectionTheme::Admin);
    assert_eq!(section_theme("faq"), SectionTheme::Autres);
}

#[test]
fn section_titles_and_orders() {
    assert_eq!(section_title(None, "routing"), "Routing");
    assert_eq!(section_title(Some("# Route\nx"), "x"), "Route");
    assert_eq!(section_title(None, "éclair"), "éclair");
    assert_eq!(section_title(None, ""), "");
    assert!(is_index_file_name("01-intro.md"));
    assert!(!is_index_file_name("intro.md"));
    assert!(!is_index_file_name("01-intro.txt"));
    assert_eq!(section_sort_order(Some("03-orm.md")), 3);
    assert_eq!(section_sort_order(None), 99);
}

fn named<T>(name: &str, entry: T) -> Named<T> {
    Named { key: name.as_bytes().to_vec(), entry }
}

#[test]
fn sections_of_a_language() {
    let e = |n: Option<&str>, d: bool| LangEntry { name: n.map(|x| x.to_string()), is_dir: d };
    let entries = vec![
        named("orm", e(Some("orm"), true)),
        named("cour", e(Some("cour"), true)),
        named("admin", e(Some("admin"), true)),
        named("ia", e(Some("ia"), true)),
        named("file.md", e(Some("file.md"), false)),
        Named { key: vec![0xff, 0xfe], entry: e(None, true) },
        named("auth", e(Some("auth"), true)),
    ];
    assert_eq!(collect_sections(&entries), vec![s("admin"), s("auth"), s("orm")]);
}

#[test]
fn pages_of_a_section() {
    let entries = vec![
        named("login", SectionEntry::Directory {
            name: Some(s("login")),
            entries: vec![
                named("x", SubEntry::Directory {
                    name: Some(s("x")),
                    md_files: vec![named("x.md", Some(s("x"))), named("b.md", Some(s("b"))), named("a.md", Some(s("a")))],
                }),
                named("csp", SubEntry::Directory { name: Some(s("csp")), md_files: vec![named("csp.md", Some(s("csp")))] }),
                named("notes.txt", SubEntry::Other),
                named("00-login.md", SubEntry::Markdown),
            ],
        }),
        named("01-auth.md", SectionEntry::Markdown),
        named("image.png", SectionEntry::Other),
        named("", SectionEntry::Directory { name: Some(s("")), entries: vec![named("a.md", SubEntry::Markdown)] }),
    ];
    let pages = collect_section_pages("auth", &entries);
    let got: Vec<(String, i32, PagePlace)> = pages.into_iter().map(|p| (p.slug, p.order, p.place)).collect();
    assert_eq!(
        got,
        vec![
            (s("auth-index"), 0, PagePlace::Index(1)),
            (s("auth-login"), 1, PagePlace::Sub(0, 3)),
            (s("auth-login-csp"), 2, PagePlace::Leaf(0, 1, 0)),
            (s("auth-login-x-a"), 3, PagePlace::Leaf(0, 0, 2)),
            (s("auth-login-x-b"), 4, PagePlace::Leaf(0, 0, 1)),
            (s("auth-login-x"), 5, PagePlace::Leaf(0, 0, 0)),
        ]
    );
    let checked = collect_section_pages_checked("auth", &entries).unwrap();
    assert_eq!(checked.len(), 6);
    assert_eq!(checked[3].slug, "auth-login-x-a");
    assert!(collect_section_pages_checked("auth", &vec![]).unwrap().is_empty());
}

#[test]
fn page_slugs_route_back() {
    let entries = vec![
        named("csp", SectionEntry::Directory { name: Some(s("csp")), entries: vec![named("csp.md", SubEntry::Markdown)] }),
        named("01-middleware.md", SectionEntry::Markdown),
    ];
    for p in collect_section_pages("middleware", &entries) {
        let page = p.slug.strip_prefix("middleware-").unwrap();
        assert_eq!(doc_page_slug("middleware", page), p.slug);
    }
    assert_eq!(doc_page_slug("auth", "login"), "auth-login");
}

#[test]
fn urls_of_slugs() {
    assert_eq!(slug_to_urls("fr", "auth", "auth-index"), vec![s("/docs/fr/auth"), s("/docs/fr/auth/index")]);
    assert_eq!(slug_to_urls("en", "auth", "auth-login"), vec![s("/docs/en/auth/login")]);
    assert_eq!(slug_to_urls("en", "auth", "other"), vec![s("/docs/en/auth/other")]);
}

#[test]
fn doc_links_and_normalization() {
    assert_eq!(
        extract_doc_links("see [a](/docs/fr/auth) and [b](/docs/en/orm#x \"t\") [c](/other)"),
        vec![s("/docs/fr/auth"), s("/docs/en/orm#x")]
    );
    assert_eq!(extract_doc_links("[z](/docs/end"), vec![s("/docs/end")]);
    assert_eq!(normalize_link("/docs/fr/auth/#top"), "/docs/fr/auth");
    assert_eq!(normalize_link("/docs/en/?q=1"), "/docs/en");
    assert_eq!(normalize_link("/docs/en//"), "/docs/en");
}

#[test]
fn difficulty_order() {
    let v = vec![s("avance"), s("autre"), s("debutant"), s("specifique"), s("intermediaire")];
    assert_eq!(
        sort_difficulties(v),
        vec![s("debutant"), s("intermediaire"), s("avance"), s("specifique"), s("autre")]
    );
}

#[test]
fn page_urls_lead_back_to_their_pages() {
    let entries = vec![
        named("csp", SectionEntry::Directory {
            name: Some(s("csp")),
            entries: vec![
                named("nonce", SubEntry::Directory {
                    name: Some(s("nonce")),
                    md_files: vec![named("b.md", Some(s("b"))), named("a.md", Some(s("a")))],
                }),
                named("csp.md", SubEntry::Markdown),
            ],
        }),
        named("01-middleware.md", SectionEntry::Markdown),
    ];
    let base = "/docs/en/middleware";
    let mut urls = Vec::new();
    for p in collect_section_pages("middleware", &entries) {
        for url in slug_to_urls("en", "middleware", &p.slug) {
            let page = if url == base { "index" } else { url.strip_prefix("/docs/en/middleware/").unwrap() };
            assert_eq!(doc_page_slug("middleware", page), p.slug);
            urls.push(url);
        }
    }
    assert_eq!(
        urls,
        vec![
            s("/docs/en/middleware"),
            s("/docs/en/middleware/index"),
            s("/docs/en/middleware/csp"),
            s("/docs/en/middleware/csp-nonce-a"),
            s("/docs/en/middleware/csp-nonce-b"),
        ]
    );
}
