use demo_app::handlers::{
    admin_form_outcome, effective_search, get_credentials, login_outcome, login_welcome,
    save_outcome, signup_outcome, signup_welcome, upload_error_message, AccountCheck,
    AdminFormOutcome, FormMethod, LoginOutcome, SaveOutcome, SignupOutcome,
};
use demo_app::schema::{test_all_fields_schema, ColumnKind};

fn s(x: &str) -> String {
    x.to_string()
}

#[test]
fn all_fields_schema() {
    let m = test_all_fields_schema();
    assert_eq!(m.model, "TestAllFields");
    assert_eq!(m.table, "test_all_fields");
    assert_eq!(m.primary_key.name, "id");
    assert!(m.primary_key.uuid);
    assert_eq!(m.columns.len(), 31);
    assert_eq!(m.columns[0].name, "f_text");
    assert_eq!(m.columns[0].kind, ColumnKind::String);
    assert!(m.columns[0].nullable);
    assert_eq!(m.columns[7].name, "f_float");
    assert_eq!(m.columns[7].kind, ColumnKind::String);
    assert_eq!(m.columns[20].kind, ColumnKind::BigInteger);
    assert_eq!(m.columns[30].name, "updated_at");
    assert_eq!(m.columns[30].kind, ColumnKind::AutoNowUpdate);
    assert!(!m.columns[30].nullable);
}

#[test]
fn credentials() {
    assert_eq!(get_credentials(s("bob"), s("pw")), Some((s("bob"), s("pw"))));
    assert_eq!(get_credentials(s(""), s("pw")), None);
    assert_eq!(get_credentials(s("bob"), s("")), None);
}

#[test]
fn login_decisions() {
    let ok = Some(AccountCheck { is_active: true, password_matches: true });
    let inactive = Some(AccountCheck { is_active: false, password_matches: true });
    assert_eq!(login_outcome(true, FormMethod::Post, true, ok), LoginOutcome::AlreadyLoggedIn);
    assert_eq!(login_outcome(false, FormMethod::Get, false, None), LoginOutcome::ShowForm);
    assert_eq!(login_outcome(false, FormMethod::Post, true, ok), LoginOutcome::LogIn);
    assert_eq!(login_outcome(false, FormMethod::Post, true, inactive), LoginOutcome::InvalidCredentials);
    assert_eq!(login_outcome(false, FormMethod::Post, true, None), LoginOutcome::InvalidCredentials);
    assert_eq!(login_outcome(false, FormMethod::Post, false, ok), LoginOutcome::ShowAgain);
    assert_eq!(login_welcome("bob"), "Welcome bob!");
}

#[test]
fn signup_decisions() {
    assert_eq!(signup_outcome(true, FormMethod::Get, false, None), SignupOutcome::AlreadyLoggedIn);
    assert_eq!(signup_outcome(false, FormMethod::Get, false, None), SignupOutcome::ShowForm);
    assert_eq!(signup_outcome(false, FormMethod::Post, true, Some(true)), SignupOutcome::Created);
    assert_eq!(signup_outcome(false, FormMethod::Post, true, Some(false)), SignupOutcome::ShowErrors);
    assert_eq!(signup_outcome(false, FormMethod::Post, false, None), SignupOutcome::ShowErrors);
    assert_eq!(signup_welcome("ann"), "Welcome ann! Your account has been created.");
}

#[test]
fn form_page_decisions() {
    assert_eq!(save_outcome(true, false, true, true, None), SaveOutcome::NeedLogin);
    assert_eq!(save_outcome(false, false, true, false, None), SaveOutcome::ShowForm);
    assert_eq!(save_outcome(false, false, false, false, None), SaveOutcome::ShowErrors);
    assert_eq!(save_outcome(true, true, false, true, Some(true)), SaveOutcome::Saved);
    assert_eq!(save_outcome(false, false, false, true, Some(false)), SaveOutcome::DatabaseError);
    assert_eq!(admin_form_outcome(FormMethod::Get, true), AdminFormOutcome::Show);
    assert_eq!(admin_form_outcome(FormMethod::Post, true), AdminFormOutcome::Save);
    assert_eq!(admin_form_outcome(FormMethod::Post, false), AdminFormOutcome::ShowErrors);
}

#[test]
fn upload_errors_and_search() {
    assert_eq!(upload_error_message(&vec![s("too big"), s("bad type")]), "too big | bad type");
    assert_eq!(upload_error_message(&vec![]), "Validation error");
    assert_eq!(effective_search(Some(s("rust"))), Some(s("rust")));
    assert_eq!(effective_search(Some(s(""))), None);
    assert_eq!(effective_search(None), None);
}
