use demo_app::cards::{
    changelog_page, group_changelog, group_fields, group_known_issues, group_roadmap, ChangelogRow,
    IssueRow, RoadmapRow, RoadmapStatus,
};

fn s(x: &str) -> String {
    x.to_string()
}

fn row(v: &str, d: &str, c: &str, t: &str, o: i32) -> ChangelogRow {
    ChangelogRow {
        version: s(v),
        release_date: s(d),
        category: s(c),
        title: s(t),
        description: format!("about {t}"),
        sort_order: o,
    }
}

#[test]
fn changelog_groups_by_release() {
    let rows = vec![
        row("2.0", "d2", "Fix", "t1", 2),
        row("2.0", "d2b", "Feature", "t2", 1),
        row("1.0", "d1", "Feature", "t3", 0),
        row("2.0", "d2c", "Fix", "t4", 1),
    ];
    let sections = group_changelog(&rows);
    assert_eq!(sections.len(), 2);
    assert_eq!(sections[0].heading, "v2.0 — d2");
    assert_eq!(sections[0].heading_class, "roadmap-active");
    let titles: Vec<&str> = sections[0].entries.iter().map(|e| e.title.as_str()).collect();
    assert_eq!(titles, vec!["t2", "t4", "t1"]);
    assert_eq!(sections[0].entries[0].subtitle, Some(s("Feature")));
    assert_eq!(sections[0].entries[0].description, "about t2");
    assert_eq!(sections[0].entries[0].link_url, None);
    assert_eq!(sections[1].heading, "v1.0 — d1");
    assert_eq!(sections[1].entries.len(), 1);
    assert!(group_changelog(&vec![]).is_empty());
}

#[test]
fn changelog_paging() {
    assert_eq!(changelog_page(vec![1, 2, 3], 0), (vec![1], 1, 3));
    assert_eq!(changelog_page(vec![1, 2, 3], 2), (vec![2], 2, 3));
    assert_eq!(changelog_page(vec![1, 2, 3], 5), (vec![3], 3, 3));
    assert_eq!(changelog_page(Vec::<i32>::new(), 2), (vec![], 1, 0));
}

#[test]
fn known_issues_group_by_run() {
    let r = |v: &str, t: &str, title: &str| IssueRow {
        version: s(v),
        issue_type: s(t),
        title: s(title),
        description: s("d"),
    };
    let rows = vec![r("1.2", "Bug", "A"), r("1.2", "Doc", "B"), r("1.1", "Bug", "C"), r("1.2", "Bug", "D")];
    let sections = group_known_issues(&rows);
    let got: Vec<(String, Vec<String>)> = sections
        .iter()
        .map(|x| (x.heading.clone(), x.entries.iter().map(|e| e.title.clone()).collect()))
        .collect();
    assert_eq!(
        got,
        vec![
            (s("v1.2"), vec![s("A"), s("B")]),
            (s("v1.1"), vec![s("C")]),
            (s("v1.2"), vec![s("D")]),
        ]
    );
    assert_eq!(sections[0].entries[1].subtitle, Some(s("Doc")));
}

#[test]
fn roadmap_by_status() {
    let r = |st: RoadmapStatus, t: &str| RoadmapRow {
        status: st,
        title: s(t),
        description: s("d"),
        link_url: Some(s("https://x")),
        link_label: None,
        link_url_2: None,
        link_label_2: Some(s("l2")),
    };
    let rows = vec![r(RoadmapStatus::Planned, "P1"), r(RoadmapStatus::Active, "A1"), r(RoadmapStatus::Planned, "P2")];
    let sections = group_roadmap(&rows);
    assert_eq!(sections.len(), 2);
    assert_eq!(sections[0].heading, "🔧 In progress");
    assert_eq!(sections[0].heading_class, "roadmap-active");
    assert_eq!(sections[1].heading, "📋 Planned");
    assert_eq!(sections[1].heading_class, "roadmap-planned");
    let titles: Vec<&str> = sections[1].entries.iter().map(|e| e.title.as_str()).collect();
    assert_eq!(titles, vec!["P1", "P2"]);
    assert_eq!(sections[0].entries[0].subtitle, None);
    assert_eq!(sections[0].entries[0].link_url, Some(s("https://x")));
    assert_eq!(sections[0].entries[0].link_label_2, Some(s("l2")));
    let future = group_roadmap(&vec![r(RoadmapStatus::Future, "F")]);
    assert_eq!(future[0].heading, "🔭 Future");
    assert_eq!(future[0].heading_class, "roadmap-future");
}

#[test]
fn fields_group_by_type() {
    let g = group_fields(vec![(s("text"), 1), (s("text"), 2), (s("email"), 3), (s("text"), 4)]);
    let got: Vec<(String, Vec<i32>)> = g.into_iter().map(|x| (x.field_type, x.fields)).collect();
    assert_eq!(got, vec![(s("text"), vec![1, 2]), (s("email"), vec![3]), (s("text"), vec![4])]);
}

#[test]
fn each_release_listed_once() {
    let rows = vec![
        row("3.0", "d3", "Fix", "a", 1),
        row("2.0", "d2", "Fix", "b", 1),
        row("3.0", "d3", "Feature", "c", 0),
        row("2.0", "d2", "Fix", "d", 0),
        row("1.0", "d1", "Fix", "e", 5),
    ];
    let headings: Vec<String> = group_changelog(&rows).into_iter().map(|sec| sec.heading).collect();
    assert_eq!(headings, vec![s("v3.0 — d3"), s("v2.0 — d2"), s("v1.0 — d1")]);
}
