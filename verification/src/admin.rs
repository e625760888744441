//! Helpers of the generated admin: the order of the values offered by a
//! list filter, the quoting of filter values, record ids, routes, and the
//! dashboard template switch.

use vstd::prelude::*;
use crate::numbers::{parse_i32, parse_i32_chars, parse_i64, parse_i64_chars};
use crate::text::{append_chars, chars_of, string_of, trim_char, trim_char_end, trimmed_char, trimmed_char_end};

verus! {

/// `a` is at most `b` in the order of `String`: character by character,
/// by code point, a prefix first.
pub open spec fn text_le(a: Seq<char>, b: Seq<char>) -> bool
    decreases a.len(),
{
    if a.len() == 0 {
        true
    } else if b.len() == 0 {
        false
    } else if (a[0] as u32) < (b[0] as u32) {
        true
    } else if (a[0] as u32) > (b[0] as u32) {
        false
    } else {
        text_le(a.drop_first(), b.drop_first())
    }
}

/// The order of the values of a list filter: as numbers when both read as
/// `i64`, as text otherwise.
pub open spec fn value_le(a: Seq<char>, b: Seq<char>) -> bool {
    match (parse_i64(a), parse_i64(b)) {
        (Some(x), Some(y)) => x <= y,
        _ => text_le(a, b),
    }
}

/// Whether `a` is at most `b` as text.
fn chars_le(a: &[char], b: &[char]) -> (r: bool)
    ensures
        r == text_le(a@, b@),
{
    let mut k: usize = 0;
    assert(a@.subrange(0, a@.len() as int) =~= a@);
    assert(b@.subrange(0, b@.len() as int) =~= b@);
    while k < a.len() && k < b.len() && a[k] == b[k]
        invariant
            k <= a@.len(),
            k <= b@.len(),
            text_le(a@, b@) == text_le(a@.subrange(k as int, a@.len() as int), b@.subrange(k as int, b@.len() as int)),
        decreases a@.len() - k,
    {
        proof {
            let x = a@.subrange(k as int, a@.len() as int);
            let y = b@.subrange(k as int, b@.len() as int);
            assert(x.drop_first() =~= a@.subrange(k + 1, a@.len() as int));
            assert(y.drop_first() =~= b@.subrange(k + 1, b@.len() as int));
            assert(x[0] == a@[k as int]);
            assert(y[0] == b@[k as int]);
        }
        k = k + 1;
    }
    proof {
        let x = a@.subrange(k as int, a@.len() as int);
        let y = b@.subrange(k as int, b@.len() as int);
        if k < a@.len() {
            assert(x[0] == a@[k as int]);
        }
        if k < b@.len() {
            assert(y[0] == b@[k as int]);
        }
        if k < a@.len() && k < b@.len() {
            assert(a@[k as int] != b@[k as int]);
            vstd::utf8::char_u32_cast(a@[k as int], a@[k as int] as u32);
            vstd::utf8::char_u32_cast(b@[k as int], b@[k as int] as u32);
            assert((a@[k as int] as u32) != (b@[k as int] as u32));
        }
    }
    if k == a.len() {
        true
    } else if k == b.len() {
        false
    } else {
        (a[k] as u32) < (b[k] as u32)
    }
}

/// Whether the filter value `a` is at most `b`.
pub fn filter_value_le(a: &str, b: &str) -> (r: bool)
    ensures
        r == value_le(a@, b@),
{
    let x = chars_of(a);
    let y = chars_of(b);
    match (parse_i64_chars(x.as_slice()), parse_i64_chars(y.as_slice())) {
        (Some(p), Some(q)) => p <= q,
        _ => chars_le(x.as_slice(), y.as_slice()),
    }
}

/// Where `x` goes in `s`: after the leading values that are at most `x`.
pub open spec fn value_insert_pos(s: Seq<Seq<char>>, x: Seq<char>) -> nat
    decreases s.len(),
{
    if s.len() == 0 || !value_le(s[0], x) {
        0
    } else {
        1 + value_insert_pos(s.drop_first(), x)
    }
}

/// The values sorted by insertion in the filter order, values that compare
/// equal kept in their order.
pub open spec fn sorted_values(xs: Seq<Seq<char>>) -> Seq<Seq<char>>
    decreases xs.len(),
{
    if xs.len() == 0 {
        Seq::empty()
    } else {
        let s = sorted_values(xs.drop_last());
        s.insert(value_insert_pos(s, xs.last()) as int, xs.last())
    }
}

pub proof fn lemma_value_insert_pos_bound(s: Seq<Seq<char>>, x: Seq<char>)
    ensures
        value_insert_pos(s, x) <= s.len(),
    decreases s.len(),
{
    if s.len() > 0 && value_le(s[0], x) {
        lemma_value_insert_pos_bound(s.drop_first(), x);
    }
}

/// The number that a value reads as (0 for a value that is no number).
pub open spec fn value_number(v: Seq<char>) -> int {
    match parse_i64(v) {
        Some(x) => x as int,
        None => 0,
    }
}

/// Every value reads as an `i64`.
pub open spec fn all_numeric(xs: Seq<Seq<char>>) -> bool {
    forall|k: int| 0 <= k < xs.len() ==> parse_i64(#[trigger] xs[k]) is Some
}

proof fn lemma_value_insert_pos_split(s: Seq<Seq<char>>, x: Seq<char>)
    requires
        all_numeric(s),
        parse_i64(x) is Some,
    ensures
        forall|k: int| 0 <= k < value_insert_pos(s, x) ==> value_number(#[trigger] s[k]) <= value_number(x),
        value_insert_pos(s, x) < s.len() ==> value_number(s[value_insert_pos(s, x) as int]) > value_number(x),
    decreases s.len(),
{
    if s.len() > 0 {
        assert(parse_i64(s[0]) is Some);
        if value_le(s[0], x) {
            assert(all_numeric(s.drop_first())) by {
                assert forall|k: int| 0 <= k < s.drop_first().len() implies parse_i64(#[trigger] s.drop_first()[k]) is Some by {
                    assert(s.drop_first()[k] == s[k + 1]);
                }
            }
            lemma_value_insert_pos_split(s.drop_first(), x);
            lemma_value_insert_pos_bound(s.drop_first(), x);
            assert forall|k: int| 0 <= k < value_insert_pos(s, x) implies value_number(#[trigger] s[k]) <= value_number(x) by {
                if k > 0 {
                    assert(s[k] == s.drop_first()[k - 1]);
                }
            }
        }
    }
}

/// Sorting the values of a list filter keeps each value, each as often; and
/// values that all read as numbers come out in numeric order.
pub proof fn law_filter_values_sorted(xs: Seq<Seq<char>>)
    ensures
        sorted_values(xs).to_multiset() == xs.to_multiset(),
        all_numeric(xs) ==> forall|i: int, j: int|
            0 <= i < j < sorted_values(xs).len() ==> value_number(sorted_values(xs)[i]) <= value_number(
                sorted_values(xs)[j],
            ),
    decreases xs.len(),
{
    broadcast use vstd::seq_lib::group_to_multiset_ensures;

    if xs.len() > 0 {
        let rest = xs.drop_last();
        law_filter_values_sorted(rest);
        let s = sorted_values(rest);
        let x = xs.last();
        let p = value_insert_pos(s, x) as int;
        lemma_value_insert_pos_bound(s, x);
        vstd::seq_lib::to_multiset_insert(s, p, x);
        vstd::seq_lib::to_multiset_build(rest, x);
        assert(rest.push(x) =~= xs);
        if all_numeric(xs) {
            assert(all_numeric(rest)) by {
                assert forall|k: int| 0 <= k < rest.len() implies parse_i64(#[trigger] rest[k]) is Some by {
                    assert(rest[k] == xs[k]);
                }
            }
            assert(all_numeric(s)) by {
                assert forall|k: int| 0 <= k < s.len() implies parse_i64(#[trigger] s[k]) is Some by {
                    assert(s.to_multiset().count(s[k]) > 0);
                    assert(rest.contains(s[k]));
                    let w = choose|w: int| 0 <= w < rest.len() && rest[w] == s[k];
                }
            }
            assert(parse_i64(x) is Some) by {
                assert(x == xs[xs.len() - 1]);
            }
            lemma_value_insert_pos_split(s, x);
            let r = s.insert(p, x);
            assert forall|i: int, j: int| 0 <= i < j < r.len() implies value_number(r[i]) <= value_number(r[j]) by {
                if j < p {
                    assert(r[i] == s[i] && r[j] == s[j]);
                } else if j == p {
                    assert(r[i] == s[i]);
                } else if i < p {
                    assert(r[i] == s[i] && r[j] == s[j - 1]);
                    assert(value_number(s[i]) <= value_number(x));
                    assert(value_number(s[p]) > value_number(x));
                    assert(value_number(s[p]) <= value_number(s[j - 1]));
                } else if i == p {
                    assert(r[j] == s[j - 1]);
                    assert(value_number(s[p]) <= value_number(s[j - 1]));
                } else {
                    assert(r[i] == s[i - 1] && r[j] == s[j - 1]);
                }
            }
        }
    }
}

/// Sorts the values offered by a list filter: numbers in numeric order,
/// other values as text.
pub fn sort_filter_values(vals: Vec<String>) -> (r: Vec<String>)
    ensures
        r@.map_values(|s: String| s@) == sorted_values(vals@.map_values(|s: String| s@)),
{
    let ghost xs = vals@.map_values(|s: String| s@);
    let ghost orig = vals@;
    let mut vals = vals;
    let len0 = vals.len();
    let mut sorted: Vec<String> = Vec::new();
    let mut k: usize = 0;
    assert(orig.subrange(0, orig.len() as int) =~= orig);
    while vals.len() > 0
        invariant
            orig.len() == len0,
            k <= orig.len(),
            xs == orig.map_values(|s: String| s@),
            vals@ == orig.subrange(k as int, orig.len() as int),
            sorted@.map_values(|s: String| s@) == sorted_values(xs.subrange(0, k as int)),
        decreases vals@.len(),
    {
        assert(k < orig.len());
        let x = vals.remove(0);
        assert(vals@ =~= orig.subrange(k + 1, orig.len() as int));
        let ghost sv = sorted@.map_values(|s: String| s@);
        let mut pos: usize = 0;
        assert(sv.subrange(0, sv.len() as int) =~= sv);
        while pos < sorted.len() && filter_value_le(sorted[pos].as_str(), x.as_str())
            invariant
                pos <= sorted@.len(),
                sv == sorted@.map_values(|s: String| s@),
                value_insert_pos(sv, x@) == pos + value_insert_pos(sv.subrange(pos as int, sv.len() as int), x@),
            decreases sorted@.len() - pos,
        {
            proof {
                let t = sv.subrange(pos as int, sv.len() as int);
                assert(t.drop_first() =~= sv.subrange(pos + 1, sv.len() as int));
                assert(t[0] == sorted@[pos as int]@);
            }
            pos = pos + 1;
        }
        proof {
            let t = sv.subrange(pos as int, sv.len() as int);
            if pos < sv.len() {
                assert(t[0] == sorted@[pos as int]@);
            }
            lemma_value_insert_pos_bound(sv, x@);
            let pre = xs.subrange(0, k + 1);
            assert(pre.drop_last() =~= xs.subrange(0, k as int));
            assert(pre.last() == x@);
        }
        sorted.insert(pos, x);
        assert(sorted@.map_values(|s: String| s@) =~= sv.insert(pos as int, x@));
        k = k + 1;
    }
    assert(xs.subrange(0, k as int) =~= xs);
    sorted
}

/// `s` with every `'` doubled, as an SQL string literal needs.
pub open spec fn sql_escaped(s: Seq<char>) -> Seq<char>
    decreases s.len(),
{
    if s.len() == 0 {
        Seq::empty()
    } else {
        sql_escaped(s.drop_last()) + if s.last() == '\'' {
            seq!['\'', '\'']
        } else {
            seq![s.last()]
        }
    }
}

/// Doubles the single quotes of a filter value before it goes into SQL.
pub fn escape_sql_literal(val: &str) -> (r: String)
    ensures
        r@ == sql_escaped(val@),
{
    let s = chars_of(val);
    let mut out: Vec<char> = Vec::new();
    let mut k: usize = 0;
    while k < s.len()
        invariant
            k <= s@.len(),
            out@ == sql_escaped(s@.subrange(0, k as int)),
        decreases s@.len() - k,
    {
        let ghost before = out@;
        if s[k] == '\'' {
            out.push('\'');
            out.push('\'');
        } else {
            out.push(s[k]);
        }
        proof {
            let t = s@.subrange(0, k + 1);
            assert(t.drop_last() =~= s@.subrange(0, k as int));
            assert(t.last() == s@[k as int]);
            assert(out@ =~= sql_escaped(t));
        }
        k = k + 1;
    }
    assert(s@.subrange(0, s@.len() as int) =~= s@);
    string_of(out.as_slice())
}

/// Why a record id was refused.
#[derive(Clone, Copy, Debug, PartialEq, Eq, Structural)]
pub enum IdError {
    /// The id is not an `i32` written in decimal.
    Invalid,
}

/// The message of an id error.
pub fn id_error_message(e: IdError) -> (r: &'static str)
    ensures
        r@ == "id invalide"@,
{
    match e {
        IdError::Invalid => "id invalide",
    }
}

/// Reads the id of a record from a path segment.
pub fn parse_record_id(id: &str) -> (r: Result<i32, IdError>)
    ensures
        match parse_i32(id@) {
            Some(v) => r == Ok::<i32, IdError>(v),
            None => r == Err::<i32, IdError>(IdError::Invalid),
        },
{
    match parse_i32_chars(chars_of(id).as_slice()) {
        Some(v) => Ok(v),
        None => Err(IdError::Invalid),
    }
}

/// The offset of a page of filter values.
pub fn filter_page_offset(page: u64, page_size: u64) -> (r: u64)
    requires
        page * page_size <= u64::MAX,
    ensures
        r == page * page_size,
{
    page * page_size
}

/// `prefix` followed by `rest`, the prefix without its trailing `/`.
pub open spec fn under_prefix(prefix: Seq<char>, rest: Seq<char>) -> Seq<char> {
    trim_char_end(prefix, '/') + rest
}

/// `prefix` without its trailing slashes, followed by `rest`.
fn prefixed(prefix: &str, rest: &str) -> (r: String)
    ensures
        r@ == under_prefix(prefix@, rest@),
{
    let mut p = trimmed_char_end(chars_of(prefix).as_slice(), '/');
    append_chars(&mut p, chars_of(rest).as_slice());
    string_of(p.as_slice())
}

/// The two routes of the admin prototype: `{prefix}/{resource}/{action}` and
/// `{prefix}/{resource}/{id}/{action}`.
pub fn admin_routes(prefix: &str) -> (r: (String, String))
    ensures
        r.0@ == under_prefix(prefix@, "/{resource}/{action}"@),
        r.1@ == under_prefix(prefix@, "/{resource}/{id}/{action}"@),
{
    (prefixed(prefix, "/{resource}/{action}"), prefixed(prefix, "/{resource}/{id}/{action}"))
}

/// Where the user handlers send back to after a change: the user list.
pub fn users_list_url(prefix: &str) -> (r: String)
    ensures
        r@ == under_prefix(prefix@, "/users/list"@),
{
    prefixed(prefix, "/users/list")
}

/// The route of the dashboard template switch.
pub fn toggle_template_route(prefix: &str) -> (r: String)
    ensures
        r@ == under_prefix(prefix@, "/toggle-template"@),
{
    prefixed(prefix, "/toggle-template")
}

pub proof fn lemma_trim_char_end_slash(p: Seq<char>, c: char)
    ensures
        trim_char_end(p.push(c), c) == trim_char_end(p, c),
{
    assert(p.push(c).drop_last() =~= p);
}

/// A trailing slash on the prefix changes none of the routes.
pub proof fn law_prefix_trailing_slash(prefix: Seq<char>, rest: Seq<char>)
    ensures
        under_prefix(prefix.push('/'), rest) == under_prefix(prefix, rest),
{
    lemma_trim_char_end_slash(prefix, '/');
}

/// The routes of the user pages, with their names.
pub fn users_routes(prefix: &str) -> (r: Vec<(String, &'static str)>)
    ensures
        r@.len() == 5,
        r@[0].0@ == prefix@ + "/users/list"@ && r@[0].1@ == "users_list"@,
        r@[1].0@ == prefix@ + "/users/create"@ && r@[1].1@ == "users_create"@,
        r@[2].0@ == prefix@ + "/users/{id}"@ && r@[2].1@ == "users_detail"@,
        r@[3].0@ == prefix@ + "/users/{id}/edit"@ && r@[3].1@ == "users_edit"@,
        r@[4].0@ == prefix@ + "/users/{id}/delete"@ && r@[4].1@ == "users_delete"@,
{
    let p = chars_of(prefix);
    let mut out: Vec<(String, &'static str)> = Vec::new();
    out.push((joined(p.as_slice(), "/users/list"), "users_list"));
    out.push((joined(p.as_slice(), "/users/create"), "users_create"));
    out.push((joined(p.as_slice(), "/users/{id}"), "users_detail"));
    out.push((joined(p.as_slice(), "/users/{id}/edit"), "users_edit"));
    out.push((joined(p.as_slice(), "/users/{id}/delete"), "users_delete"));
    out
}

/// `p` followed by `rest`.
fn joined(p: &[char], rest: &str) -> (r: String)
    ensures
        r@ == p@ + rest@,
{
    let mut v: Vec<char> = Vec::new();
    append_chars(&mut v, p);
    append_chars(&mut v, chars_of(rest).as_slice());
    string_of(v.as_slice())
}

/// What the dashboard template switch does to the session.
#[derive(Clone, Copy, Debug, PartialEq, Eq, Structural)]
pub enum TemplateToggle {
    /// Remove the override: back to the configured template.
    RemoveOverride,
    /// Set the override to Runique's default dashboard template.
    SetDefaultDashboard,
}

/// The template that the switch sets.
pub fn default_dashboard_template() -> (r: &'static str)
    ensures
        r@ == "admin/dashboard"@,
{
    "admin/dashboard"
}

/// The switch: with an override in the session it removes it, without one
/// it sets the default dashboard template.
pub fn toggle_template(has_override: bool) -> (r: TemplateToggle)
    ensures
        r == if has_override {
            TemplateToggle::RemoveOverride
        } else {
            TemplateToggle::SetDefaultDashboard
        },
{
    if has_override {
        TemplateToggle::RemoveOverride
    } else {
        TemplateToggle::SetDefaultDashboard
    }
}

/// Whether the session holds an override after the switch.
pub open spec fn override_after(has_override: bool) -> bool {
    match (if has_override {
        TemplateToggle::RemoveOverride
    } else {
        TemplateToggle::SetDefaultDashboard
    }) {
        TemplateToggle::RemoveOverride => false,
        TemplateToggle::SetDefaultDashboard => true,
    }
}

/// Each use of the switch flips whether an override is set, so two uses
/// leave the session as it was.
pub proof fn law_toggle_flips(has_override: bool)
    ensures
        override_after(has_override) == !has_override,
        override_after(override_after(has_override)) == has_override,
{
}

/// The text of a JSON value as a form field shows it: its JSON text without
/// the surrounding quotes.
pub fn unquote_json_value(json_text: &str) -> (r: String)
    ensures
        r@ == trim_char(json_text@, '"'),
{
    string_of(trimmed_char(chars_of(json_text).as_slice(), '"').as_slice())
}


/// Quoting a filter value doubles its single quotes and changes nothing
/// else: it quotes the parts of a value one after the other, a value
/// without quotes is left as it is, and a lone quote becomes two.
pub proof fn law_sql_quoting(a: Seq<char>, b: Seq<char>)
    ensures
        sql_escaped(a + b) == sql_escaped(a) + sql_escaped(b),
        (forall|k: int| 0 <= k < a.len() ==> #[trigger] a[k] != '\'') ==> sql_escaped(a) == a,
        sql_escaped(seq!['\'']) == seq!['\'', '\''],
    decreases b.len(),
{
    if b.len() > 0 {
        law_sql_quoting(a, b.drop_last());
        assert((a + b).drop_last() =~= a + b.drop_last());
        assert((a + b).last() == b.last());
    } else {
        assert(a + b =~= a);
    }
    lemma_sql_plain(a);
    let q = seq!['\''];
    assert(q.drop_last() =~= Seq::<char>::empty());
    assert(q.last() == '\'');
    assert(sql_escaped(q.drop_last()) == Seq::<char>::empty());
    assert(sql_escaped(q) =~= seq!['\'', '\'']);
}

proof fn lemma_sql_plain(a: Seq<char>)
    ensures
        (forall|k: int| 0 <= k < a.len() ==> #[trigger] a[k] != '\'') ==> sql_escaped(a) == a,
    decreases a.len(),
{
    if a.len() > 0 {
        lemma_sql_plain(a.drop_last());
        if forall|k: int| 0 <= k < a.len() ==> #[trigger] a[k] != '\'' {
            assert forall|k: int| 0 <= k < a.drop_last().len() implies #[trigger] a.drop_last()[k] != '\'' by {
                assert(a.drop_last()[k] == a[k]);
            }
            assert(a.last() == a[a.len() - 1]);
            assert(a.drop_last() + seq![a.last()] =~= a);
        }
    }
}

} // verus!
