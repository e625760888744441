use demo_app::psql::psql_error_lines;

#[test]
fn report_keeps_error_lines_in_order() {
    let report = "SET\npsql:seed.sql:12: ERREUR:  la relation « blog » existe déjà\r\nCOPY 3\npsql:seed.sql:40: ERROR:  duplicate key value\n";
    assert_eq!(
        psql_error_lines(report),
        vec![
            "psql:seed.sql:12: ERREUR:  la relation « blog » existe déjà".to_string(),
            "psql:seed.sql:40: ERROR:  duplicate key value".to_string(),
        ]
    );
}

#[test]
fn report_without_errors_gives_nothing() {
    assert!(psql_error_lines("").is_empty());
    assert!(psql_error_lines("NOTICE: truncate cascades\nCOPY 12").is_empty());
    assert!(psql_error_lines("error in lower case\n").is_empty());
}
