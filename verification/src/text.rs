//! Characters, whitespace, lines and searching over text viewed as `Seq<char>`.
//!
//! The spec functions here state what the corresponding `str` methods of std
//! compute; the executable functions work on `&[char]` and are proved against
//! them.

use vstd::prelude::*;

verus! {

// ───────────────────────────── whitespace and trimming ─────────────────────────────

/// Unicode `White_Space`, the property that `char::is_whitespace` tests.
pub open spec fn is_ws(c: char) -> bool {
    let u = c as u32;
    (0x09 <= u && u <= 0x0D) || u == 0x20 || u == 0x85 || u == 0xA0 || u == 0x1680
        || (0x2000 <= u && u <= 0x200A) || u == 0x2028 || u == 0x2029 || u == 0x202F
        || u == 0x205F || u == 0x3000
}

/// Executable whitespace test.
pub fn char_is_ws(c: char) -> (b: bool)
    ensures
        b == is_ws(c),
{
    let u = c as u32;
    (0x09 <= u && u <= 0x0D) || u == 0x20 || u == 0x85 || u == 0xA0 || u == 0x1680
        || (0x2000 <= u && u <= 0x200A) || u == 0x2028 || u == 0x2029 || u == 0x202F
        || u == 0x205F || u == 0x3000
}

/// `s` without its leading whitespace (`str::trim_start`).
pub open spec fn trim_start(s: Seq<char>) -> Seq<char>
    decreases s.len(),
{
    if s.len() > 0 && is_ws(s[0]) {
        trim_start(s.drop_first())
    } else {
        s
    }
}

/// `s` without its trailing whitespace (`str::trim_end`).
pub open spec fn trim_end(s: Seq<char>) -> Seq<char>
    decreases s.len(),
{
    if s.len() > 0 && is_ws(s.last()) {
        trim_end(s.drop_last())
    } else {
        s
    }
}

/// `s` without leading and trailing whitespace (`str::trim`).
pub open spec fn trim(s: Seq<char>) -> Seq<char> {
    trim_end(trim_start(s))
}

pub proof fn lemma_trim_start_at(s: Seq<char>, i: int)
    requires
        0 <= i <= s.len(),
        forall|k: int| 0 <= k < i ==> is_ws(#[trigger] s[k]),
        i < s.len() ==> !is_ws(s[i]),
    ensures
        trim_start(s) == s.subrange(i, s.len() as int),
    decreases i,
{
    if i == 0 {
        assert(s.subrange(0, s.len() as int) =~= s);
    } else {
        let t = s.drop_first();
        assert forall|k: int| 0 <= k < i - 1 implies is_ws(#[trigger] t[k]) by {
            assert(t[k] == s[k + 1]);
        }
        lemma_trim_start_at(t, i - 1);
        assert(t.subrange(i - 1, t.len() as int) =~= s.subrange(i, s.len() as int));
    }
}

pub proof fn lemma_trim_end_at(s: Seq<char>, j: int)
    requires
        0 <= j <= s.len(),
        forall|k: int| j <= k < s.len() ==> is_ws(#[trigger] s[k]),
        j > 0 ==> !is_ws(s[j - 1]),
    ensures
        trim_end(s) == s.subrange(0, j),
    decreases s.len() - j,
{
    if j == s.len() {
        assert(s.subrange(0, s.len() as int) =~= s);
    } else {
        let t = s.drop_last();
        assert forall|k: int| j <= k < t.len() implies is_ws(#[trigger] t[k]) by {
            assert(t[k] == s[k]);
        }
        lemma_trim_end_at(t, j);
        assert(t.subrange(0, j) =~= s.subrange(0, j));
    }
}

/// The bounds `(a, b)` such that `s[a..b]` is `s` trimmed.
pub fn trim_bounds(s: &[char]) -> (r: (usize, usize))
    ensures
        r.0 <= r.1 <= s@.len(),
        s@.subrange(r.0 as int, r.1 as int) == trim(s@),
        trim_start(s@) == s@.subrange(r.0 as int, s@.len() as int),
{
    let n = s.len();
    let mut i: usize = 0;
    while i < n && char_is_ws(s[i])
        invariant
            n == s@.len(),
            i <= n,
            forall|k: int| 0 <= k < i ==> is_ws(#[trigger] s@[k]),
        decreases n - i,
    {
        i = i + 1;
    }
    proof {
        lemma_trim_start_at(s@, i as int);
    }
    let mut j: usize = n;
    while j > i && char_is_ws(s[j - 1])
        invariant
            n == s@.len(),
            i <= j <= n,
            forall|k: int| j <= k < n ==> is_ws(#[trigger] s@[k]),
        decreases j,
    {
        j = j - 1;
    }
    proof {
        let t = s@.subrange(i as int, n as int);
        assert forall|k: int| j - i <= k < t.len() implies is_ws(#[trigger] t[k]) by {
            assert(t[k] == s@[k + i]);
        }
        if j > i {
            assert(t[j - i - 1] == s@[j - 1]);
        }
        lemma_trim_end_at(t, j - i);
        assert(t.subrange(0, j - i) =~= s@.subrange(i as int, j as int));
    }
    (i, j)
}

// ───────────────────────────── copying and conversion ─────────────────────────────

/// The characters of a string slice, in order.
pub fn chars_of(s: &str) -> (v: Vec<char>)
    ensures
        v@ == s@,
{
    let mut v: Vec<char> = Vec::new();
    for c in it: s.chars()
        invariant
            v@ == it.seq().take(it.index() as int),
    {
        v.push(c);
    }
    v
}

/// Calls `String::from_iter` on the characters: the string made of them,
/// in order.
#[verifier::external_body]
pub(crate) fn string_of(v: &[char]) -> (s: String)
    ensures
        s@ == v@,
{
    String::from_iter(v)
}

/// A copy of `s[a..b]`.
pub fn copy_range(s: &[char], a: usize, b: usize) -> (r: Vec<char>)
    requires
        a <= b <= s@.len(),
    ensures
        r@ == s@.subrange(a as int, b as int),
{
    let mut r: Vec<char> = Vec::new();
    let mut k = a;
    while k < b
        invariant
            a <= k <= b <= s@.len(),
            r@ == s@.subrange(a as int, k as int),
        decreases b - k,
    {
        r.push(s[k]);
        k = k + 1;
        assert(r@ =~= s@.subrange(a as int, k as int));
    }
    r
}

/// A copy of `s` trimmed.
pub fn trimmed(s: &[char]) -> (r: Vec<char>)
    ensures
        r@ == trim(s@),
{
    let (a, b) = trim_bounds(s);
    copy_range(s, a, b)
}

/// A copy of `s` with its leading whitespace removed.
pub fn trimmed_start(s: &[char]) -> (r: Vec<char>)
    ensures
        r@ == trim_start(s@),
{
    let (a, _b) = trim_bounds(s);
    copy_range(s, a, s.len())
}

/// Appends `t` to `v`.
pub fn append_chars(v: &mut Vec<char>, t: &[char])
    ensures
        final(v)@ == old(v)@ + t@,
{
    let mut k: usize = 0;
    while k < t.len()
        invariant
            k <= t@.len(),
            v@ == old(v)@ + t@.subrange(0, k as int),
        decreases t@.len() - k,
    {
        v.push(t[k]);
        k = k + 1;
        assert(v@ =~= old(v)@ + t@.subrange(0, k as int));
    }
    assert(t@.subrange(0, t@.len() as int) =~= t@);
}

/// Whether two character sequences are equal.
pub fn chars_eq(a: &[char], b: &[char]) -> (r: bool)
    ensures
        r == (a@ == b@),
{
    if a.len() != b.len() {
        return false;
    }
    let mut k: usize = 0;
    while k < a.len()
        invariant
            a@.len() == b@.len(),
            k <= a@.len(),
            forall|m: int| 0 <= m < k ==> a@[m] == b@[m],
        decreases a@.len() - k,
    {
        if a[k] != b[k] {
            return false;
        }
        k = k + 1;
    }
    assert(a@ =~= b@);
    true
}

// ───────────────────────────── case mapping ─────────────────────────────

/// What `str::to_lowercase` returns for a string with these characters.
pub uninterp spec fn lowercase(s: Seq<char>) -> Seq<char>;

/// An ASCII uppercase letter.
pub open spec fn is_ascii_upper(c: char) -> bool {
    'A' <= c && c <= 'Z'
}

/// Every character is ASCII.
pub open spec fn all_ascii(s: Seq<char>) -> bool {
    forall|k: int| 0 <= k < s.len() ==> (#[trigger] s[k] as u32) < 128
}

/// `char::to_ascii_lowercase`: an ASCII uppercase letter becomes its
/// lowercase letter, any other character stays.
pub open spec fn ascii_lower_char(c: char) -> char {
    if is_ascii_upper(c) {
        ((c as u32) + 32) as char
    } else {
        c
    }
}

/// Every character mapped by `ascii_lower_char`.
pub open spec fn ascii_lowercase(s: Seq<char>) -> Seq<char> {
    s.map_values(|c: char| ascii_lower_char(c))
}

/// Calls `str::to_lowercase`: the Unicode lowercase mapping of the whole
/// string. The contract claims that the result depends on the characters of
/// the argument alone and names it `lowercase`; that it holds no ASCII
/// uppercase letter (an ASCII letter maps to its lowercase letter, and no
/// Unicode lowercase mapping gives an ASCII uppercase letter); and that a
/// string made of ASCII characters maps as `to_ascii_lowercase` maps it.
/// What it does to other characters is left unsaid.
#[verifier::external_body]
pub(crate) fn to_lowercase(s: &str) -> (r: String)
    ensures
        r@ == lowercase(s@),
        forall|k: int| 0 <= k < r@.len() ==> !is_ascii_upper(#[trigger] r@[k]),
        all_ascii(s@) ==> r@ == ascii_lowercase(s@),
{
    s.to_lowercase()
}

/// The lowercase mapping of a sequence of characters.
pub fn lowercase_chars(s: &[char]) -> (r: Vec<char>)
    ensures
        r@ == lowercase(s@),
        forall|k: int| 0 <= k < r@.len() ==> !is_ascii_upper(#[trigger] r@[k]),
        all_ascii(s@) ==> r@ == ascii_lowercase(s@),
{
    let st = string_of(s);
    let low = to_lowercase(st.as_str());
    chars_of(low.as_str())
}


// ───────────────────────────── lines ─────────────────────────────

/// Index of the first `c` in `s`, or `s.len()` when there is none.
pub open spec fn find_char(s: Seq<char>, c: char) -> nat
    decreases s.len(),
{
    if s.len() == 0 {
        0
    } else if s[0] == c {
        0
    } else {
        1 + find_char(s.drop_first(), c)
    }
}

pub proof fn lemma_find_char(s: Seq<char>, c: char)
    ensures
        find_char(s, c) <= s.len(),
        find_char(s, c) < s.len() ==> s[find_char(s, c) as int] == c,
        forall|k: int| 0 <= k < find_char(s, c) ==> s[k] != c,
    decreases s.len(),
{
    if s.len() > 0 && s[0] != c {
        lemma_find_char(s.drop_first(), c);
        assert forall|k: int| 0 <= k < find_char(s, c) implies s[k] != c by {
            if k > 0 {
                assert(s[k] == s.drop_first()[k - 1]);
            }
        }
    }
}

pub proof fn lemma_find_char_at(s: Seq<char>, c: char, i: int)
    requires
        0 <= i <= s.len(),
        forall|k: int| 0 <= k < i ==> s[k] != c,
        i < s.len() ==> s[i] == c,
    ensures
        find_char(s, c) == i,
{
    lemma_find_char(s, c);
    let f = find_char(s, c) as int;
    if f < i {
        assert(s[f] == c);
    } else if f > i {
        assert(s[i] != c);
    }
}

/// A line with its `\r` removed, the way `str::lines` ends a line at `\r\n`.
pub open spec fn strip_cr(l: Seq<char>) -> Seq<char> {
    if l.len() > 0 && l.last() == '\r' {
        l.drop_last()
    } else {
        l
    }
}

/// What `str::lines` yields: the text split after each `\n`, a `\r` before
/// the `\n` dropped, and no empty last line after a final `\n`.
pub open spec fn lines(s: Seq<char>) -> Seq<Seq<char>>
    decreases s.len(),
{
    if s.len() == 0 {
        Seq::empty()
    } else {
        let i = find_char(s, '\n');
        if i < s.len() {
            seq![strip_cr(s.subrange(0, i as int))] + lines(s.subrange(i as int + 1, s.len() as int))
        } else {
            seq![s]
        }
    }
}

/// The views of a vector of character vectors.
pub open spec fn views(v: Seq<Vec<char>>) -> Seq<Seq<char>> {
    v.map_values(|l: Vec<char>| l@)
}

/// Index of the first `c` in `s` at or after `from`, or `s.len()`.
pub fn find_char_from(s: &[char], c: char, from: usize) -> (r: usize)
    requires
        from <= s@.len(),
    ensures
        from <= r <= s@.len(),
        r == from + find_char(s@.subrange(from as int, s@.len() as int), c),
{
    let mut j = from;
    while j < s.len() && s[j] != c
        invariant
            from <= j <= s@.len(),
            forall|k: int| from <= k < j ==> s@[k] != c,
        decreases s@.len() - j,
    {
        j = j + 1;
    }
    proof {
        let t = s@.subrange(from as int, s@.len() as int);
        assert forall|k: int| 0 <= k < j - from implies t[k] != c by {
            assert(t[k] == s@[k + from]);
        }
        if j < s@.len() {
            assert(t[j - from] == s@[j as int]);
        }
        lemma_find_char_at(t, c, j - from);
    }
    j
}

/// `l` without a final `\r`.
pub fn strip_cr_chars(l: Vec<char>) -> (r: Vec<char>)
    ensures
        r@ == strip_cr(l@),
{
    let mut l = l;
    if l.len() > 0 && l[l.len() - 1] == '\r' {
        l.pop();
    }
    l
}

/// The lines of `s`, as `str::lines` yields them.
pub fn lines_of(s: &[char]) -> (r: Vec<Vec<char>>)
    ensures
        views(r@) == lines(s@),
{
    let n = s.len();
    let mut out: Vec<Vec<char>> = Vec::new();
    let mut start: usize = 0;
    assert(s@.subrange(0, n as int) =~= s@);
    while start < n
        invariant
            n == s@.len(),
            start <= n,
            views(out@) + lines(s@.subrange(start as int, n as int)) == lines(s@),
        decreases n - start,
    {
        let ghost t = s@.subrange(start as int, n as int);
        let j = find_char_from(s, '\n', start);
        let ghost old_out = out@;
        if j < n {
            let line = strip_cr_chars(copy_range(s, start, j));
            out.push(line);
            proof {
                assert(t.subrange(0, j - start) =~= s@.subrange(start as int, j as int));
                assert(t.subrange(j - start + 1, t.len() as int) =~= s@.subrange(j + 1, n as int));
                assert(views(out@) =~= views(old_out).push(line@));
                assert(lines(t) == seq![line@] + lines(s@.subrange(j + 1, n as int)));
                assert(views(out@) + lines(s@.subrange(j + 1, n as int)) =~= views(old_out)
                    + lines(t));
            }
            start = j + 1;
        } else {
            let line = copy_range(s, start, n);
            out.push(line);
            proof {
                assert(lines(t) == seq![t]);
                assert(views(out@) =~= views(old_out).push(line@));
                assert(s@.subrange(n as int, n as int) =~= Seq::<char>::empty());
                assert(views(out@) + lines(s@.subrange(n as int, n as int)) =~= views(old_out)
                    + lines(t));
            }
            start = n;
        }
    }
    proof {
        assert(s@.subrange(n as int, n as int) =~= Seq::<char>::empty());
        assert(views(out@) + Seq::<Seq<char>>::empty() =~= views(out@));
    }
    out
}

// ───────────────────────────── substrings ─────────────────────────────

/// Whether `p` occurs in `s` at index `i`.
pub open spec fn occurs_at(s: Seq<char>, i: int, p: Seq<char>) -> bool {
    0 <= i && i + p.len() <= s.len() && s.subrange(i, i + p.len()) == p
}

/// `str::starts_with` with a string pattern.
pub open spec fn starts_with(s: Seq<char>, p: Seq<char>) -> bool {
    occurs_at(s, 0, p)
}

/// `str::ends_with` with a string pattern.
pub open spec fn ends_with(s: Seq<char>, p: Seq<char>) -> bool {
    occurs_at(s, s.len() - p.len(), p)
}

/// Index of the leftmost occurrence of `p` in `s` (`str::find`).
pub open spec fn find_str(s: Seq<char>, p: Seq<char>) -> Option<nat>
    decreases s.len(),
{
    if occurs_at(s, 0, p) {
        Some(0)
    } else if s.len() == 0 {
        None
    } else {
        match find_str(s.drop_first(), p) {
            Some(i) => Some(i + 1),
            None => None,
        }
    }
}

/// `str::contains` with a string pattern.
pub open spec fn contains_str(s: Seq<char>, p: Seq<char>) -> bool {
    find_str(s, p) is Some
}

pub proof fn lemma_occurs_shift(s: Seq<char>, j: int, p: Seq<char>)
    requires
        s.len() > 0,
        0 <= j,
    ensures
        occurs_at(s.drop_first(), j, p) == occurs_at(s, j + 1, p),
{
    if j + p.len() <= s.len() - 1 {
        assert(s.drop_first().subrange(j, j + p.len()) =~= s.subrange(j + 1, j + 1 + p.len()));
    }
}

pub proof fn lemma_find_str(s: Seq<char>, p: Seq<char>)
    ensures
        match find_str(s, p) {
            Some(i) => occurs_at(s, i as int, p) && forall|j: int|
                0 <= j < i ==> !occurs_at(s, j, p),
            None => forall|j: int| 0 <= j ==> !occurs_at(s, j, p),
        },
    decreases s.len(),
{
    if occurs_at(s, 0, p) {
    } else if s.len() == 0 {
        assert forall|j: int| 0 <= j implies !occurs_at(s, j, p) by {
            if j > 0 {
            }
        }
    } else {
        lemma_find_str(s.drop_first(), p);
        assert forall|j: int| 1 <= j implies occurs_at(s.drop_first(), j - 1, p) == occurs_at(
            s,
            j,
            p,
        ) by {
            lemma_occurs_shift(s, j - 1, p);
        }
    }
}

pub proof fn lemma_find_str_at(s: Seq<char>, p: Seq<char>, i: int)
    requires
        occurs_at(s, i, p),
        forall|j: int| 0 <= j < i ==> !occurs_at(s, j, p),
    ensures
        find_str(s, p) == Some(i as nat),
{
    lemma_find_str(s, p);
    match find_str(s, p) {
        Some(k) => {
            if k < i {
            } else if k > i {
            }
        },
        None => {},
    }
}

pub proof fn lemma_find_str_none(s: Seq<char>, p: Seq<char>)
    requires
        forall|j: int| 0 <= j ==> !occurs_at(s, j, p),
    ensures
        find_str(s, p) is None,
{
    lemma_find_str(s, p);
}

/// Whether `p` occurs in `s` at `i`.
pub fn occurs(s: &[char], i: usize, p: &[char]) -> (r: bool)
    ensures
        r == occurs_at(s@, i as int, p@),
{
    if i > s.len() || p.len() > s.len() - i {
        return false;
    }
    let mut k: usize = 0;
    while k < p.len()
        invariant
            i + p@.len() <= s@.len(),
            k <= p@.len(),
            p@.len() == p.len(),
            s@.len() == s.len(),
            forall|m: int| 0 <= m < k ==> s@[i + m] == p@[m],
        decreases p@.len() - k,
    {
        if s[i + k] != p[k] {
            assert(s@.subrange(i as int, i + p@.len())[k as int] != p@[k as int]);
            return false;
        }
        k = k + 1;
    }
    assert(s@.subrange(i as int, i + p@.len()) =~= p@);
    true
}

/// `s` starts with `p`.
pub fn has_prefix(s: &[char], p: &[char]) -> (r: bool)
    ensures
        r == starts_with(s@, p@),
{
    occurs(s, 0, p)
}

/// `s` ends with `p`.
pub fn has_suffix(s: &[char], p: &[char]) -> (r: bool)
    ensures
        r == ends_with(s@, p@),
{
    if p.len() > s.len() {
        false
    } else {
        occurs(s, s.len() - p.len(), p)
    }
}

/// Leftmost occurrence of `p` in `s` at or after `from`.
pub fn find_from(s: &[char], p: &[char], from: usize) -> (r: Option<usize>)
    requires
        from <= s@.len(),
    ensures
        match r {
            Some(i) => from <= i && occurs_at(s@, i as int, p@) && forall|j: int|
                from <= j < i ==> !occurs_at(s@, j, p@),
            None => forall|j: int| from <= j ==> !occurs_at(s@, j, p@),
        },
{
    let mut i = from;
    loop
        invariant
            from <= i <= s@.len(),
            forall|j: int| from <= j < i ==> !occurs_at(s@, j, p@),
        decreases s@.len() - i,
    {
        if occurs(s, i, p) {
            return Some(i);
        }
        if i == s.len() {
            assert forall|j: int| from <= j implies !occurs_at(s@, j, p@) by {
                if j > i {
                }
            }
            return None;
        }
        i = i + 1;
    }
}

/// Leftmost occurrence of `p` in `s` (`str::find`).
pub fn find(s: &[char], p: &[char]) -> (r: Option<usize>)
    ensures
        match r {
            Some(i) => find_str(s@, p@) == Some(i as nat),
            None => find_str(s@, p@) is None,
        },
{
    let r = find_from(s, p, 0);
    proof {
        match r {
            Some(i) => lemma_find_str_at(s@, p@, i as int),
            None => lemma_find_str_none(s@, p@),
        }
    }
    r
}

/// `s` contains `p`.
pub fn contains(s: &[char], p: &[char]) -> (r: bool)
    ensures
        r == contains_str(s@, p@),
{
    find(s, p).is_some()
}

/// Whether `c` occurs in `s`.
pub open spec fn has_char(s: Seq<char>, c: char) -> bool {
    exists|k: int| 0 <= k < s.len() && s[k] == c
}

/// `s` contains the character `c`.
pub fn contains_char(s: &[char], c: char) -> (r: bool)
    ensures
        r == has_char(s@, c),
{
    let j = find_char_from(s, c, 0);
    proof {
        let t = s@.subrange(0, s@.len() as int);
        assert(t =~= s@);
        lemma_find_char(s@, c);
    }
    j < s.len()
}


// ───────────────────────────── splitting and joining ─────────────────────────────

/// What `str::split` yields with a non-empty string pattern: the pieces
/// between leftmost, non-overlapping occurrences of `p`.
pub open spec fn split_str(s: Seq<char>, p: Seq<char>) -> Seq<Seq<char>>
    decreases s.len(),
{
    match find_str(s, p) {
        Some(i) => if p.len() > 0 && i + p.len() <= s.len() {
            seq![s.subrange(0, i as int)] + split_str(s.subrange(i as int + p.len(), s.len() as int), p)
        } else {
            seq![s]
        },
        None => seq![s],
    }
}

/// The pieces of `s` between the occurrences of `p`, as `str::split` yields them.
pub fn split_on(s: &[char], p: &[char]) -> (r: Vec<Vec<char>>)
    requires
        p@.len() > 0,
    ensures
        views(r@) == split_str(s@, p@),
        r@.len() >= 1,
{
    let n = s.len();
    let mut out: Vec<Vec<char>> = Vec::new();
    let mut start: usize = 0;
    assert(s@.subrange(0, n as int) =~= s@);
    loop
        invariant
            n == s@.len(),
            p@.len() > 0,
            start <= n,
            views(out@) + split_str(s@.subrange(start as int, n as int), p@) == split_str(s@, p@),
        decreases n - start,
    {
        let ghost t = s@.subrange(start as int, n as int);
        let ghost old_out = out@;
        match find_from(s, p, start) {
            Some(i) => {
                proof {
                    assert forall|j: int| 0 <= j < i - start implies !occurs_at(t, j, p@) by {
                        if occurs_at(t, j, p@) {
                            assert(t.subrange(j, j + p@.len()) =~= s@.subrange(
                                j + start,
                                j + start + p@.len(),
                            ));
                            assert(!occurs_at(s@, j + start, p@));
                        }
                    }
                    assert(t.subrange(i - start, i - start + p@.len()) =~= s@.subrange(
                        i as int,
                        i + p@.len(),
                    ));
                    lemma_find_str_at(t, p@, i - start);
                    assert(t.subrange(0, i - start) =~= s@.subrange(start as int, i as int));
                    assert(t.subrange(i - start + p@.len(), t.len() as int) =~= s@.subrange(
                        i + p@.len(),
                        n as int,
                    ));
                }
                let piece = copy_range(s, start, i);
                out.push(piece);
                proof {
                    assert(views(out@) =~= views(old_out).push(piece@));
                    assert(split_str(t, p@) == seq![piece@] + split_str(
                        s@.subrange(i + p@.len(), n as int),
                        p@,
                    ));
                    assert(views(out@) + split_str(s@.subrange(i + p@.len(), n as int), p@)
                        =~= views(old_out) + split_str(t, p@));
                }
                start = i + p.len();
            },
            None => {
                proof {
                    assert forall|j: int| 0 <= j implies !occurs_at(t, j, p@) by {
                        if occurs_at(t, j, p@) {
                            assert(t.subrange(j, j + p@.len()) =~= s@.subrange(
                                j + start,
                                j + start + p@.len(),
                            ));
                            assert(!occurs_at(s@, j + start, p@));
                        }
                    }
                    lemma_find_str_none(t, p@);
                }
                let piece = copy_range(s, start, n);
                out.push(piece);
                proof {
                    assert(views(out@) =~= views(old_out).push(piece@));
                    assert(views(out@) =~= views(old_out) + split_str(t, p@));
                }
                return out;
            },
        }
    }
}

/// `ls` joined with `sep` between consecutive items (`[&str]::join`).
pub open spec fn join(ls: Seq<Seq<char>>, sep: Seq<char>) -> Seq<char>
    decreases ls.len(),
{
    if ls.len() == 0 {
        Seq::empty()
    } else if ls.len() == 1 {
        ls[0]
    } else {
        join(ls.drop_last(), sep) + sep + ls.last()
    }
}

/// `ls[a..b]` joined with `sep`.
pub fn join_range(ls: &Vec<Vec<char>>, a: usize, b: usize, sep: &[char]) -> (r: Vec<char>)
    requires
        a <= b <= ls@.len(),
    ensures
        r@ == join(views(ls@).subrange(a as int, b as int), sep@),
{
    let mut r: Vec<char> = Vec::new();
    let mut k = a;
    while k < b
        invariant
            a <= k <= b <= ls@.len(),
            r@ == join(views(ls@).subrange(a as int, k as int), sep@),
        decreases b - k,
    {
        let ghost old_r = r@;
        if k > a {
            append_chars(&mut r, sep);
        }
        append_chars(&mut r, ls[k].as_slice());
        proof {
            let v = views(ls@);
            let nxt = v.subrange(a as int, k + 1);
            assert(nxt.drop_last() =~= v.subrange(a as int, k as int));
            assert(nxt.last() == ls@[k as int]@);
            if k == a {
                assert(old_r =~= Seq::<char>::empty());
                assert(r@ =~= ls@[k as int]@);
            }
        }
        k = k + 1;
    }
    r
}

/// `ls` joined with `sep`.
pub fn join_all(ls: &Vec<Vec<char>>, sep: &[char]) -> (r: Vec<char>)
    ensures
        r@ == join(views(ls@), sep@),
{
    let r = join_range(ls, 0, ls.len(), sep);
    assert(views(ls@).subrange(0, ls@.len() as int) =~= views(ls@));
    r
}

/// `s` with every leading and trailing `c` removed (`str::trim_matches` with a char).
pub open spec fn trim_char(s: Seq<char>, c: char) -> Seq<char> {
    trim_char_end(trim_char_start(s, c), c)
}

/// `s` with every leading `c` removed.
pub open spec fn trim_char_start(s: Seq<char>, c: char) -> Seq<char>
    decreases s.len(),
{
    if s.len() > 0 && s[0] == c {
        trim_char_start(s.drop_first(), c)
    } else {
        s
    }
}

/// `s` with every trailing `c` removed (`str::trim_end_matches` with a char).
pub open spec fn trim_char_end(s: Seq<char>, c: char) -> Seq<char>
    decreases s.len(),
{
    if s.len() > 0 && s.last() == c {
        trim_char_end(s.drop_last(), c)
    } else {
        s
    }
}

pub proof fn lemma_trim_char_start_at(s: Seq<char>, c: char, i: int)
    requires
        0 <= i <= s.len(),
        forall|k: int| 0 <= k < i ==> #[trigger] s[k] == c,
        i < s.len() ==> s[i] != c,
    ensures
        trim_char_start(s, c) == s.subrange(i, s.len() as int),
    decreases i,
{
    if i == 0 {
        assert(s.subrange(0, s.len() as int) =~= s);
    } else {
        let t = s.drop_first();
        assert forall|k: int| 0 <= k < i - 1 implies #[trigger] t[k] == c by {
            assert(t[k] == s[k + 1]);
        }
        lemma_trim_char_start_at(t, c, i - 1);
        assert(t.subrange(i - 1, t.len() as int) =~= s.subrange(i, s.len() as int));
    }
}

pub proof fn lemma_trim_char_end_at(s: Seq<char>, c: char, j: int)
    requires
        0 <= j <= s.len(),
        forall|k: int| j <= k < s.len() ==> #[trigger] s[k] == c,
        j > 0 ==> s[j - 1] != c,
    ensures
        trim_char_end(s, c) == s.subrange(0, j),
    decreases s.len() - j,
{
    if j == s.len() {
        assert(s.subrange(0, s.len() as int) =~= s);
    } else {
        let t = s.drop_last();
        assert forall|k: int| j <= k < t.len() implies #[trigger] t[k] == c by {
            assert(t[k] == s[k]);
        }
        lemma_trim_char_end_at(t, c, j);
        assert(t.subrange(0, j) =~= s.subrange(0, j));
    }
}

/// A copy of `s` without its trailing `c`s.
pub fn trimmed_char_end(s: &[char], c: char) -> (r: Vec<char>)
    ensures
        r@ == trim_char_end(s@, c),
{
    let mut j: usize = s.len();
    while j > 0 && s[j - 1] == c
        invariant
            j <= s@.len(),
            forall|k: int| j <= k < s@.len() ==> #[trigger] s@[k] == c,
        decreases j,
    {
        j = j - 1;
    }
    proof {
        lemma_trim_char_end_at(s@, c, j as int);
    }
    copy_range(s, 0, j)
}

/// A copy of `s` without its leading and trailing `c`s.
pub fn trimmed_char(s: &[char], c: char) -> (r: Vec<char>)
    ensures
        r@ == trim_char(s@, c),
{
    let n = s.len();
    let mut i: usize = 0;
    while i < n && s[i] == c
        invariant
            n == s@.len(),
            i <= n,
            forall|k: int| 0 <= k < i ==> #[trigger] s@[k] == c,
        decreases n - i,
    {
        i = i + 1;
    }
    proof {
        lemma_trim_char_start_at(s@, c, i as int);
    }
    let rest = copy_range(s, i, n);
    trimmed_char_end(rest.as_slice(), c)
}

/// `s` with the prefix `p` removed as many times as it occurs
/// (`str::trim_start_matches` with a string pattern).
pub open spec fn strip_prefixes(s: Seq<char>, p: Seq<char>) -> Seq<char>
    decreases s.len(),
{
    if p.len() > 0 && starts_with(s, p) {
        strip_prefixes(s.subrange(p.len() as int, s.len() as int), p)
    } else {
        s
    }
}

/// A copy of `s` with the prefix `p` removed as many times as it occurs.
pub fn stripped_prefixes(s: &[char], p: &[char]) -> (r: Vec<char>)
    ensures
        r@ == strip_prefixes(s@, p@),
{
    let mut cur = copy_range(s, 0, s.len());
    assert(cur@ =~= s@);
    if p.len() == 0 {
        return cur;
    }
    loop
        invariant
            p@.len() > 0,
            strip_prefixes(cur@, p@) == strip_prefixes(s@, p@),
        decreases cur@.len(),
    {
        if has_prefix(cur.as_slice(), p) {
            let n = cur.len();
            cur = copy_range(cur.as_slice(), p.len(), n);
        } else {
            return cur;
        }
    }
}


/// Leftmost occurrence of `p` in `s[from..]`, as an index into `s`.
pub fn find_in_suffix(s: &[char], p: &[char], from: usize) -> (r: Option<usize>)
    requires
        from <= s@.len(),
    ensures
        match r {
            Some(i) => from <= i && find_str(s@.subrange(from as int, s@.len() as int), p@) == Some(
                (i - from) as nat,
            ) && occurs_at(s@, i as int, p@),
            None => find_str(s@.subrange(from as int, s@.len() as int), p@) is None,
        },
{
    let r = find_from(s, p, from);
    let ghost t = s@.subrange(from as int, s@.len() as int);
    proof {
        match r {
            Some(i) => {
                assert forall|j: int| 0 <= j < i - from implies !occurs_at(t, j, p@) by {
                    if occurs_at(t, j, p@) {
                        assert(t.subrange(j, j + p@.len()) =~= s@.subrange(j + from, j + from + p@.len()));
                        assert(!occurs_at(s@, j + from, p@));
                    }
                }
                assert(t.subrange(i - from, i - from + p@.len()) =~= s@.subrange(i as int, i + p@.len()));
                lemma_find_str_at(t, p@, i - from);
            },
            None => {
                assert forall|j: int| 0 <= j implies !occurs_at(t, j, p@) by {
                    if occurs_at(t, j, p@) {
                        assert(t.subrange(j, j + p@.len()) =~= s@.subrange(j + from, j + from + p@.len()));
                        assert(!occurs_at(s@, j + from, p@));
                    }
                }
                lemma_find_str_none(t, p@);
            },
        }
    }
    r
}

/// The number of leading characters of `t` that `stop` does not hold of.
pub open spec fn span_until(t: Seq<char>, stop: spec_fn(char) -> bool) -> nat
    decreases t.len(),
{
    if t.len() == 0 || stop(t[0]) {
        0
    } else {
        1 + span_until(t.drop_first(), stop)
    }
}

pub proof fn lemma_span_until(t: Seq<char>, stop: spec_fn(char) -> bool, i: int)
    requires
        0 <= i <= t.len(),
        forall|k: int| 0 <= k < i ==> !stop(#[trigger] t[k]),
        i < t.len() ==> stop(t[i]),
    ensures
        span_until(t, stop) == i,
    decreases i,
{
    if i > 0 {
        let u = t.drop_first();
        assert forall|k: int| 0 <= k < i - 1 implies !stop(#[trigger] u[k]) by {
            assert(u[k] == t[k + 1]);
        }
        if i < t.len() {
            assert(u[i - 1] == t[i]);
        }
        lemma_span_until(u, stop, i - 1);
    }
}

pub proof fn lemma_span_until_bound(t: Seq<char>, stop: spec_fn(char) -> bool)
    ensures
        span_until(t, stop) <= t.len(),
    decreases t.len(),
{
    if t.len() > 0 && !stop(t[0]) {
        lemma_span_until_bound(t.drop_first(), stop);
    }
}

} // verus!
