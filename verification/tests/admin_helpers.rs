use demo_app::admin::{
    admin_routes, default_dashboard_template, escape_sql_literal, filter_page_offset,
    filter_value_le, id_error_message, parse_record_id, sort_filter_values, toggle_template,
    toggle_template_route, unquote_json_value, users_list_url, users_routes, IdError,
    TemplateToggle,
};

fn s(x: &str) -> String {
    x.to_string()
}

#[test]
fn filter_values_order() {
    assert!(!filter_value_le("10", "9"));
    assert!(filter_value_le("9", "10"));
    assert!(filter_value_le("a", "b"));
    assert!(filter_value_le("ab", "abc"));
    assert!(filter_value_le("-3", "2"));
    let v = vec![s("10"), s("9"), s("b"), s("a"), s("2")];
    assert_eq!(sort_filter_values(v), vec![s("2"), s("9"), s("10"), s("a"), s("b")]);
    assert_eq!(sort_filter_values(vec![s("true"), s("false")]), vec![s("false"), s("true")]);
}

#[test]
fn quotes_are_doubled() {
    assert_eq!(escape_sql_literal("O'Brien"), "O''Brien");
    assert_eq!(escape_sql_literal("''"), "''''");
    assert_eq!(escape_sql_literal("plain"), "plain");
}

#[test]
fn record_ids() {
    assert_eq!(parse_record_id("42"), Ok(42));
    assert_eq!(parse_record_id("-7"), Ok(-7));
    assert_eq!(parse_record_id("4x"), Err(IdError::Invalid));
    assert_eq!(parse_record_id(""), Err(IdError::Invalid));
    assert_eq!(parse_record_id("2147483648"), Err(IdError::Invalid));
    assert_eq!(id_error_message(IdError::Invalid), "id invalide");
    assert_eq!(filter_page_offset(3, 10), 30);
}

#[test]
fn routes_ignore_trailing_slashes() {
    assert_eq!(
        admin_routes("/admin/"),
        (s("/admin/{resource}/{action}"), s("/admin/{resource}/{id}/{action}"))
    );
    assert_eq!(admin_routes("/admin"), admin_routes("/admin/"));
    assert_eq!(users_list_url("/admin//"), "/admin/users/list");
    assert_eq!(toggle_template_route("/admin/"), "/admin/toggle-template");
    let r = users_routes("/a");
    assert_eq!(r[0], (s("/a/users/list"), "users_list"));
    assert_eq!(r[2], (s("/a/users/{id}"), "users_detail"));
    assert_eq!(r[4], (s("/a/users/{id}/delete"), "users_delete"));
}

#[test]
fn template_switch() {
    assert_eq!(toggle_template(true), TemplateToggle::RemoveOverride);
    assert_eq!(toggle_template(false), TemplateToggle::SetDefaultDashboard);
    assert_eq!(default_dashboard_template(), "admin/dashboard");
}

#[test]
fn json_values_unquoted() {
    assert_eq!(unquote_json_value("\"bob\""), "bob");
    assert_eq!(unquote_json_value("42"), "42");
}

#[test]
fn numeric_filter_values_keep_every_value() {
    let v = vec![s("12"), s("-4"), s("007"), s("7"), s("0")];
    assert_eq!(sort_filter_values(v), vec![s("-4"), s("0"), s("007"), s("7"), s("12")]);
    let w = vec![s("b"), s("a"), s("b")];
    assert_eq!(sort_filter_values(w), vec![s("a"), s("b"), s("b")]);
}
