//! The decisions of the request handlers: what a handler answers, given the
//! request and the results of the lookups and saves it made.

use vstd::prelude::*;
use crate::text::{append_chars, chars_of, join, string_of, views};

verus! {

/// The method of a form request, as the handlers tell them apart.
#[derive(Clone, Copy, Debug, PartialEq, Eq, Structural)]
pub enum FormMethod {
    Get,
    Post,
    Other,
}

/// The credentials of a login form, when both fields are filled in.
pub fn get_credentials(username: String, password: String) -> (r: Option<(String, String)>)
    ensures
        r is Some <==> (username@.len() > 0 && password@.len() > 0),
        r matches Some(p) ==> p.0@ == username@ && p.1@ == password@,
{
    if username.as_str().is_empty() || password.as_str().is_empty() {
        None
    } else {
        Some((username, password))
    }
}

/// What the account found for a login gives: whether it is active and
/// whether the password matched its hash.
#[derive(Clone, Copy, Debug, PartialEq, Eq, Structural)]
pub struct AccountCheck {
    pub is_active: bool,
    pub password_matches: bool,
}

/// The answer of the login page.
#[derive(Clone, Copy, Debug, PartialEq, Eq, Structural)]
pub enum LoginOutcome {
    /// Already logged in: go to the profile.
    AlreadyLoggedIn,
    /// Show the empty form.
    ShowForm,
    /// Log the user in, welcome them and go to the profile.
    LogIn,
    /// Show the form again with "Invalid credentials".
    InvalidCredentials,
    /// Show the form again as it is.
    ShowAgain,
}

/// The login decision: a logged-in visitor goes to the profile; a GET shows
/// the form; a valid POST logs in when the credentials are given and name an
/// active account whose password matches, and otherwise reports invalid
/// credentials; anything else shows the form again.
pub open spec fn login_outcome_of(
    authenticated: bool,
    method: FormMethod,
    form_valid: bool,
    account: Option<AccountCheck>,
) -> LoginOutcome {
    if authenticated {
        LoginOutcome::AlreadyLoggedIn
    } else if method == FormMethod::Get {
        LoginOutcome::ShowForm
    } else if method == FormMethod::Post && form_valid {
        match account {
            Some(a) => if a.is_active && a.password_matches {
                LoginOutcome::LogIn
            } else {
                LoginOutcome::InvalidCredentials
            },
            None => LoginOutcome::InvalidCredentials,
        }
    } else {
        LoginOutcome::ShowAgain
    }
}

/// Decides the answer of the login page. `account` is the check of the
/// account that the credentials name: `None` when the credentials are
/// missing or name no account.
pub fn login_outcome(
    authenticated: bool,
    method: FormMethod,
    form_valid: bool,
    account: Option<AccountCheck>,
) -> (r: LoginOutcome)
    ensures
        r == login_outcome_of(authenticated, method, form_valid, account),
{
    if authenticated {
        LoginOutcome::AlreadyLoggedIn
    } else if method == FormMethod::Get {
        LoginOutcome::ShowForm
    } else if method == FormMethod::Post && form_valid {
        match account {
            Some(a) => if a.is_active && a.password_matches {
                LoginOutcome::LogIn
            } else {
                LoginOutcome::InvalidCredentials
            },
            None => LoginOutcome::InvalidCredentials,
        }
    } else {
        LoginOutcome::ShowAgain
    }
}

/// No one is logged in without an active account and a matching password.
pub proof fn law_login_needs_active_account(
    authenticated: bool,
    method: FormMethod,
    form_valid: bool,
    account: Option<AccountCheck>,
)
    ensures
        login_outcome_of(authenticated, method, form_valid, account) == LoginOutcome::LogIn
            ==> (!authenticated && method == FormMethod::Post && form_valid && (account matches Some(
            a,
        ) && a.is_active && a.password_matches)),
{
}

/// The answer of the registration page.
#[derive(Clone, Copy, Debug, PartialEq, Eq, Structural)]
pub enum SignupOutcome {
    AlreadyLoggedIn,
    ShowForm,
    /// The account was created: log in, welcome and go to the profile.
    Created,
    /// Show the form again with its errors and "Please correct the errors".
    ShowErrors,
}

/// The registration decision; `saved` is the result of saving the account,
/// asked only for a valid POST (`None` when it was not asked).
pub open spec fn signup_outcome_of(
    authenticated: bool,
    method: FormMethod,
    form_valid: bool,
    saved: Option<bool>,
) -> SignupOutcome {
    if authenticated {
        SignupOutcome::AlreadyLoggedIn
    } else if method == FormMethod::Get {
        SignupOutcome::ShowForm
    } else if method == FormMethod::Post && form_valid && saved == Some(true) {
        SignupOutcome::Created
    } else {
        SignupOutcome::ShowErrors
    }
}

/// Decides the answer of the registration page.
pub fn signup_outcome(authenticated: bool, method: FormMethod, form_valid: bool, saved: Option<bool>) -> (r: SignupOutcome)
    ensures
        r == signup_outcome_of(authenticated, method, form_valid, saved),
{
    if authenticated {
        SignupOutcome::AlreadyLoggedIn
    } else if method == FormMethod::Get {
        SignupOutcome::ShowForm
    } else if method == FormMethod::Post && form_valid && saved == Some(true) {
        SignupOutcome::Created
    } else {
        SignupOutcome::ShowErrors
    }
}

/// The answer of a page that saves a validated form (blog post, contribution).
#[derive(Clone, Copy, Debug, PartialEq, Eq, Structural)]
pub enum SaveOutcome {
    /// Not logged in where the page needs it: go to the login page.
    NeedLogin,
    /// Show the empty form (a safe method).
    ShowForm,
    /// Show the form with its validation errors.
    ShowErrors,
    /// Saved: flash a thank-you and go to the list.
    Saved,
    /// The save failed: show the form with the database error.
    DatabaseError,
}

/// The decision of a form page: when the page needs a login and there is
/// none, the login page; a form that does not validate is shown empty for a
/// safe method and with its errors otherwise; a validated form is saved,
/// and the save's result decides.
pub open spec fn save_outcome_of(
    needs_login: bool,
    authenticated: bool,
    safe_method: bool,
    valid: bool,
    saved: Option<bool>,
) -> SaveOutcome {
    if needs_login && !authenticated {
        SaveOutcome::NeedLogin
    } else if !valid {
        if safe_method {
            SaveOutcome::ShowForm
        } else {
            SaveOutcome::ShowErrors
        }
    } else if saved == Some(true) {
        SaveOutcome::Saved
    } else {
        SaveOutcome::DatabaseError
    }
}

/// Decides the answer of a form page.
pub fn save_outcome(
    needs_login: bool,
    authenticated: bool,
    safe_method: bool,
    valid: bool,
    saved: Option<bool>,
) -> (r: SaveOutcome)
    ensures
        r == save_outcome_of(needs_login, authenticated, safe_method, valid, saved),
{
    if needs_login && !authenticated {
        SaveOutcome::NeedLogin
    } else if !valid {
        if safe_method {
            SaveOutcome::ShowForm
        } else {
            SaveOutcome::ShowErrors
        }
    } else if saved == Some(true) {
        SaveOutcome::Saved
    } else {
        SaveOutcome::DatabaseError
    }
}

/// `Welcome {username}! Your account has been created.`
pub fn signup_welcome(username: &str) -> (r: String)
    ensures
        r@ == "Welcome "@ + username@ + "! Your account has been created."@,
{
    let mut v = chars_of("Welcome ");
    append_chars(&mut v, chars_of(username).as_slice());
    append_chars(&mut v, chars_of("! Your account has been created.").as_slice());
    string_of(v.as_slice())
}

/// `Welcome {username}!`
pub fn login_welcome(username: &str) -> (r: String)
    ensures
        r@ == "Welcome "@ + username@ + "!"@,
{
    let mut v = chars_of("Welcome ");
    append_chars(&mut v, chars_of(username).as_slice());
    append_chars(&mut v, chars_of("!").as_slice());
    string_of(v.as_slice())
}

/// The flash message after a refused upload: the field errors joined by
/// ` | `, or `Validation error` when there is none.
pub open spec fn upload_error_text(errors: Seq<Seq<char>>) -> Seq<char> {
    if errors.len() == 0 {
        "Validation error"@
    } else {
        join(errors, " | "@)
    }
}

/// Builds the flash message of a refused upload from the form's errors.
pub fn upload_error_message(errors: &Vec<String>) -> (r: String)
    ensures
        r@ == upload_error_text(errors@.map_values(|e: String| e@)),
{
    if errors.len() == 0 {
        return "Validation error".to_owned();
    }
    let mut ls: Vec<Vec<char>> = Vec::new();
    let mut k: usize = 0;
    while k < errors.len()
        invariant
            k <= errors@.len(),
            views(ls@) == errors@.subrange(0, k as int).map_values(|e: String| e@),
        decreases errors@.len() - k,
    {
        let ghost before = views(ls@);
        let c = chars_of(errors[k].as_str());
        ls.push(c);
        assert(views(ls@) =~= before.push(errors@[k as int]@));
        assert(errors@.subrange(0, k + 1).map_values(|e: String| e@) =~= errors@.subrange(0, k as int).map_values(|e: String| e@).push(errors@[k as int]@));
        assert(views(ls@) =~= errors@.subrange(0, k + 1).map_values(|e: String| e@));
        k = k + 1;
    }
    assert(errors@.subrange(0, k as int) =~= errors@);
    let sep = chars_of(" | ");
    string_of(crate::text::join_all(&ls, sep.as_slice()).as_slice())
}

/// The answer of an admin form page (list or create).
#[derive(Clone, Copy, Debug, PartialEq, Eq, Structural)]
pub enum AdminFormOutcome {
    /// Show the page.
    Show,
    /// Save the entry, flash success and go back to the list.
    Save,
    /// Show the page again with "Veuillez corriger les erreurs".
    ShowErrors,
}

/// The decision of an admin form page: a GET shows it, a valid POST saves,
/// an invalid POST shows the errors, anything else shows it.
pub fn admin_form_outcome(method: FormMethod, form_valid: bool) -> (r: AdminFormOutcome)
    ensures
        r == if method == FormMethod::Post {
            if form_valid {
                AdminFormOutcome::Save
            } else {
                AdminFormOutcome::ShowErrors
            }
        } else {
            AdminFormOutcome::Show
        },
{
    if method == FormMethod::Post {
        if form_valid {
            AdminFormOutcome::Save
        } else {
            AdminFormOutcome::ShowErrors
        }
    } else {
        AdminFormOutcome::Show
    }
}

/// The search term of the article list: a given, non-empty term.
pub fn effective_search(search: Option<String>) -> (r: Option<String>)
    ensures
        r is Some <==> (search matches Some(s) && s@.len() > 0),
        r matches Some(t) ==> search == Some(t),
{
    match search {
        Some(s) => if s.as_str().is_empty() {
            None
        } else {
            Some(s)
        },
        None => None,
    }
}


/// The login page answers by the request alone: a logged-in visitor is sent
/// to the profile; otherwise a GET shows the form, and a valid POST logs in
/// exactly when the credentials name an active account whose password
/// matches, and reports invalid credentials otherwise.
pub proof fn law_login_answers(method: FormMethod, form_valid: bool, account: Option<AccountCheck>, authenticated: bool)
    ensures
        authenticated ==> login_outcome_of(authenticated, method, form_valid, account) == LoginOutcome::AlreadyLoggedIn,
        !authenticated && method == FormMethod::Get ==> login_outcome_of(authenticated, method, form_valid, account)
            == LoginOutcome::ShowForm,
        !authenticated && method == FormMethod::Post && form_valid ==> (login_outcome_of(
            authenticated,
            method,
            form_valid,
            account,
        ) == LoginOutcome::LogIn <==> (account matches Some(a) && a.is_active && a.password_matches)),
        !authenticated && method == FormMethod::Post && form_valid && !(account matches Some(a) && a.is_active
            && a.password_matches) ==> login_outcome_of(authenticated, method, form_valid, account)
            == LoginOutcome::InvalidCredentials,
{
}

} // verus!
