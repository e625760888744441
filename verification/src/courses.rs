//! The course seeder's reading of markdown courses: chapter slugs, chapters,
//! blocks and block types.

use vstd::prelude::*;
use crate::text::{
    append_chars, chars_of, contains, contains_str, copy_range, ends_with, has_prefix,
    has_suffix, join, join_all, lines, lines_of, lowercase, lowercase_chars, starts_with,
    all_ascii, ascii_lowercase, is_ascii_upper, to_lowercase, occurs_at, lemma_find_str,
    lemma_occurs_shift, is_ws, trim_start, trim_end,
    string_of, trim, trim_char, trim_char_end, trim_char_start, trimmed, trimmed_char, views,
};

verus! {

/// `char::is_ascii_alphanumeric`.
pub open spec fn is_ascii_alnum(c: char) -> bool {
    ('a' <= c && c <= 'z') || ('A' <= c && c <= 'Z') || ('0' <= c && c <= '9')
}

/// What one (already lowercased) character becomes in a slug: French accented
/// vowels and `ç` lose their accent, `&` reads `et`, blanks, `_` and `/`
/// become `-`, ASCII letters, digits and `-` stay, anything else is dropped.
pub open spec fn slug_piece(c: char) -> Seq<char> {
    if c == 'é' || c == 'è' || c == 'ê' || c == 'ë' {
        seq!['e']
    } else if c == 'à' || c == 'â' || c == 'ä' {
        seq!['a']
    } else if c == 'î' || c == 'ï' {
        seq!['i']
    } else if c == 'ô' {
        seq!['o']
    } else if c == 'ù' || c == 'û' || c == 'ü' {
        seq!['u']
    } else if c == 'ç' {
        seq!['c']
    } else if c == '&' {
        seq!['e', 't']
    } else if c == ' ' || c == '\t' || c == '_' || c == '/' {
        seq!['-']
    } else if is_ascii_alnum(c) || c == '-' {
        seq![c]
    } else {
        Seq::empty()
    }
}

/// Every character of `s` mapped by `slug_piece`, in order.
pub open spec fn slug_map(s: Seq<char>) -> Seq<char>
    decreases s.len(),
{
    if s.len() == 0 {
        Seq::empty()
    } else {
        slug_map(s.drop_last()) + slug_piece(s.last())
    }
}

/// `s` with every `-` that follows a `-` removed.
pub open spec fn collapse_dashes(s: Seq<char>) -> Seq<char>
    decreases s.len(),
{
    if s.len() == 0 {
        Seq::empty()
    } else if s.len() >= 2 && s.last() == '-' && s[s.len() - 2] == '-' {
        collapse_dashes(s.drop_last())
    } else {
        collapse_dashes(s.drop_last()).push(s.last())
    }
}

/// The slug of a text that is already in lowercase: mapped, dashes
/// collapsed, trimmed of dashes, and cut to 80 characters.
pub open spec fn slug_of_lowered(lowered: Seq<char>) -> Seq<char> {
    let t = trim_char(collapse_dashes(slug_map(lowered)), '-');
    if t.len() <= 80 {
        t
    } else {
        t.subrange(0, 80)
    }
}

/// The slug of a text whose lowercase form has already been taken.
pub fn slugify_lowered(lowered: &str) -> (r: String)
    ensures
        r@ == slug_of_lowered(lowered@),
{
    let s = chars_of(lowered);
    let mut mapped: Vec<char> = Vec::new();
    let mut k: usize = 0;
    while k < s.len()
        invariant
            k <= s@.len(),
            mapped@ == slug_map(s@.subrange(0, k as int)),
        decreases s@.len() - k,
    {
        let c = s[k];
        if c == 'é' || c == 'è' || c == 'ê' || c == 'ë' {
            mapped.push('e');
        } else if c == 'à' || c == 'â' || c == 'ä' {
            mapped.push('a');
        } else if c == 'î' || c == 'ï' {
            mapped.push('i');
        } else if c == 'ô' {
            mapped.push('o');
        } else if c == 'ù' || c == 'û' || c == 'ü' {
            mapped.push('u');
        } else if c == 'ç' {
            mapped.push('c');
        } else if c == '&' {
            mapped.push('e');
            mapped.push('t');
        } else if c == ' ' || c == '\t' || c == '_' || c == '/' {
            mapped.push('-');
        } else if ('a' <= c && c <= 'z') || ('A' <= c && c <= 'Z') || ('0' <= c && c <= '9')
            || c == '-' {
            mapped.push(c);
        }
        proof {
            let t = s@.subrange(0, k + 1);
            assert(t.drop_last() =~= s@.subrange(0, k as int));
            assert(t.last() == c);
            assert(mapped@ =~= slug_map(s@.subrange(0, k as int)) + slug_piece(c));
        }
        k = k + 1;
    }
    assert(s@.subrange(0, s@.len() as int) =~= s@);
    let mut out: Vec<char> = Vec::new();
    let mut prev_dash = false;
    let mut m: usize = 0;
    while m < mapped.len()
        invariant
            m <= mapped@.len(),
            out@ == collapse_dashes(mapped@.subrange(0, m as int)),
            prev_dash == (m > 0 && mapped@[m - 1] == '-'),
        decreases mapped@.len() - m,
    {
        let c = mapped[m];
        proof {
            let t = mapped@.subrange(0, m + 1);
            assert(t.drop_last() =~= mapped@.subrange(0, m as int));
            assert(t.last() == c);
            if m > 0 {
                assert(t[t.len() - 2] == mapped@[m - 1]);
            }
        }
        if c == '-' {
            if !prev_dash {
                out.push('-');
            }
            prev_dash = true;
        } else {
            out.push(c);
            prev_dash = false;
        }
        m = m + 1;
    }
    assert(mapped@.subrange(0, mapped@.len() as int) =~= mapped@);
    let t = trimmed_char(out.as_slice(), '-');
    if t.len() <= 80 {
        string_of(t.as_slice())
    } else {
        let mut cut: Vec<char> = Vec::new();
        let mut i: usize = 0;
        while i < 80
            invariant
                i <= 80 < t@.len(),
                cut@ == t@.subrange(0, i as int),
            decreases 80 - i,
        {
            cut.push(t[i]);
            i = i + 1;
            assert(cut@ =~= t@.subrange(0, i as int));
        }
        string_of(cut.as_slice())
    }
}

/// Only lowercase ASCII letters, digits and dashes.
pub open spec fn is_lower_slug(s: Seq<char>) -> bool {
    forall|k: int| 0 <= k < s.len() ==> ('a' <= #[trigger] s[k] && s[k] <= 'z') || ('0' <= s[k] && s[k] <= '9') || s[k] == '-'
}

/// No ASCII uppercase letter.
pub open spec fn no_ascii_upper(s: Seq<char>) -> bool {
    forall|k: int| 0 <= k < s.len() ==> !is_ascii_upper(#[trigger] s[k])
}

/// The slug of a chapter title: the title in lowercase, then
/// `slugify_lowered`. The slug holds only lowercase ASCII letters, digits
/// and dashes, and one shorter than 80 characters is its own slug.
pub fn slugify(s: &str) -> (r: String)
    ensures
        r@ == slug_of_lowered(lowercase(s@)),
        is_lower_slug(r@),
        r@.len() < 80 ==> slug_of_lowered(lowercase(r@)) == r@,
{
    let lower = string_of(lowercase_chars(chars_of(s).as_slice()).as_slice());
    let slug = slugify_lowered(lower.as_str());
    proof {
        lemma_lower_slug(lower@);
        law_slug_shape(lower@);
    }
    // A slug is its own lowercase form; taking that form is what lets the
    // contract state that a slug slugifies to itself.
    let r = to_lowercase(slug.as_str());
    proof {
        assert(all_ascii(slug@)) by {
            assert forall|k: int| 0 <= k < slug@.len() implies (#[trigger] slug@[k] as u32) < 128 by {
                let c = slug@[k];
                assert(('a' <= c && c <= 'z') || ('0' <= c && c <= '9') || c == '-');
            }
        }
        assert(ascii_lowercase(slug@) =~= slug@) by {
            assert forall|k: int| 0 <= k < slug@.len() implies ascii_lowercase(slug@)[k] == slug@[k] by {
                let c = slug@[k];
                assert(('a' <= c && c <= 'z') || ('0' <= c && c <= '9') || c == '-');
            }
        }
        if slug@.len() < 80 {
            law_slug_idempotent(lower@);
        }
    }
    r
}

proof fn lemma_slug_map_lower(s: Seq<char>)
    requires
        no_ascii_upper(s),
    ensures
        is_lower_slug(slug_map(s)),
    decreases s.len(),
{
    if s.len() > 0 {
        let p = s.drop_last();
        assert forall|k: int| 0 <= k < p.len() implies !is_ascii_upper(#[trigger] p[k]) by {
            assert(p[k] == s[k]);
        }
        lemma_slug_map_lower(p);
        let a = slug_map(p);
        let b = slug_piece(s.last());
        assert(!is_ascii_upper(s.last()));
        assert forall|k: int| 0 <= k < (a + b).len() implies ('a' <= #[trigger] (a + b)[k] && (a + b)[k] <= 'z')
            || ('0' <= (a + b)[k] && (a + b)[k] <= '9') || (a + b)[k] == '-' by {
            if k >= a.len() {
                assert((a + b)[k] == b[k - a.len()]);
            } else {
                assert((a + b)[k] == a[k]);
            }
        }
    }
}

proof fn lemma_collapse_lower(s: Seq<char>)
    requires
        is_lower_slug(s),
    ensures
        is_lower_slug(collapse_dashes(s)),
    decreases s.len(),
{
    if s.len() > 0 {
        let p = s.drop_last();
        assert forall|k: int| 0 <= k < p.len() implies ('a' <= #[trigger] p[k] && p[k] <= 'z') || ('0' <= p[k] && p[k] <= '9') || p[k] == '-' by {
            assert(p[k] == s[k]);
        }
        lemma_collapse_lower(p);
        let c = collapse_dashes(p);
        if !(s.len() >= 2 && s.last() == '-' && s[s.len() - 2] == '-') {
            let r = c.push(s.last());
            assert forall|k: int| 0 <= k < r.len() implies ('a' <= #[trigger] r[k] && r[k] <= 'z') || ('0' <= r[k] && r[k] <= '9') || r[k] == '-' by {
                if k < c.len() {
                    assert(r[k] == c[k]);
                }
            }
        }
    }
}

proof fn lemma_sub_lower(s: Seq<char>, i: int, j: int)
    requires
        0 <= i <= j <= s.len(),
        is_lower_slug(s),
    ensures
        is_lower_slug(s.subrange(i, j)),
{
    let t = s.subrange(i, j);
    assert forall|k: int| 0 <= k < t.len() implies ('a' <= #[trigger] t[k] && t[k] <= 'z') || ('0' <= t[k] && t[k] <= '9') || t[k] == '-' by {
        assert(t[k] == s[k + i]);
    }
}

/// The slug of a text without ASCII uppercase letters holds only lowercase
/// ASCII letters, digits and dashes.
proof fn lemma_lower_slug(lowered: Seq<char>)
    requires
        no_ascii_upper(lowered),
    ensures
        is_lower_slug(slug_of_lowered(lowered)),
{
    let m = slug_map(lowered);
    lemma_slug_map_lower(lowered);
    lemma_collapse_lower(m);
    let c = collapse_dashes(m);
    lemma_trim_dash_start(c);
    let a = trim_char_start(c, '-');
    let i = choose|i: int| 0 <= i <= c.len() && a == c.subrange(i, c.len() as int);
    lemma_sub_lower(c, i, c.len() as int);
    lemma_trim_dash_end(a);
    let b = trim_char_end(a, '-');
    let j = choose|j: int| 0 <= j <= a.len() && b == a.subrange(0, j);
    lemma_sub_lower(a, 0, j);
    if b.len() > 80 {
        lemma_sub_lower(b, 0, 80);
    }
}


/// `### `, the start of a block heading.
pub open spec fn h3_mark() -> Seq<char> {
    seq!['#', '#', '#', ' ']
}

/// The first line of `s`, or nothing when `s` has no line.
pub open spec fn first_line(s: Seq<char>) -> Seq<char> {
    if lines(s).len() > 0 {
        lines(s)[0]
    } else {
        Seq::empty()
    }
}

/// The block type of trimmed content `s` whose first line is `l`.
pub open spec fn block_type_trimmed(s: Seq<char>, l: Seq<char>) -> Seq<char> {
    if starts_with(s, seq!['`', '`', '`']) {
        "code"@
    } else if starts_with(s, seq!['|']) && starts_with(l, seq!['|']) && ends_with(l, seq!['|']) {
        "table"@
    } else if starts_with(s, seq!['-', ' ']) || starts_with(s, seq!['*', ' ']) {
        "list"@
    } else if s.len() >= 3 && '0' <= s[0] && s[0] <= '9' && s[1] == '.' && s[2] == ' ' {
        "list"@
    } else if starts_with(s, seq!['>', ' ']) {
        "warning"@
    } else {
        "text"@
    }
}

/// The type of a block of course content, after trimming: `code` for a fenced
/// block, `table` when it starts with `|` and its first line ends with `|`,
/// `list` for `- `, `* ` or a digit followed by `. `, `warning` for a `> `
/// quote, `text` otherwise.
pub open spec fn block_type_of(content: Seq<char>) -> Seq<char> {
    block_type_trimmed(trim(content), first_line(trim(content)))
}

fn block_type_of_parts(s: &[char], l: &[char]) -> (r: &'static str)
    ensures
        r@ == block_type_trimmed(s@, l@),
{
    let fe = vec!['`', '`', '`'];
    let bar = vec!['|'];
    let dash = vec!['-', ' '];
    let star = vec!['*', ' '];
    let quote = vec!['>', ' '];
    assert(fe@ == seq!['`', '`', '`']);
    assert(bar@ == seq!['|']);
    assert(dash@ == seq!['-', ' ']);
    assert(star@ == seq!['*', ' ']);
    assert(quote@ == seq!['>', ' ']);
    if has_prefix(s, fe.as_slice()) {
        return "code";
    }
    if has_prefix(s, bar.as_slice()) && has_prefix(l, bar.as_slice()) && has_suffix(
        l,
        bar.as_slice(),
    ) {
        return "table";
    }
    if has_prefix(s, dash.as_slice()) || has_prefix(s, star.as_slice()) {
        return "list";
    }
    if s.len() >= 3 && '0' <= s[0] && s[0] <= '9' && s[1] == '.' && s[2] == ' ' {
        return "list";
    }
    if has_prefix(s, quote.as_slice()) {
        return "warning";
    }
    "text"
}

/// The type of a block of course content (`code`, `table`, `list`, `warning` or `text`).
pub fn detect_block_type(content: &str) -> (r: &'static str)
    ensures
        r@ == block_type_of(content@),
{
    let s = trimmed(chars_of(content).as_slice());
    let ls = lines_of(s.as_slice());
    let first: Vec<char> = if ls.len() > 0 {
        copy_line(&ls, 0)
    } else {
        Vec::new()
    };
    assert(ls.len() > 0 ==> views(ls@)[0] == ls@[0]@);
    assert(first@ == first_line(s@));
    block_type_of_parts(s.as_slice(), first.as_slice())
}

/// A copy of line `k`.
fn copy_line(ls: &Vec<Vec<char>>, k: usize) -> (r: Vec<char>)
    requires
        k < ls@.len(),
    ensures
        r@ == ls@[k as int]@,
{
    let l = &ls[k];
    let mut r: Vec<char> = Vec::new();
    append_chars(&mut r, l.as_slice());
    r
}


/// `## `, the start of a chapter heading.
pub open spec fn h2_mark() -> Seq<char> {
    seq!['#', '#', ' ']
}

/// A chapter: its title and its raw content.
pub type ChapterView = (Seq<char>, Seq<char>);

/// The chapter being read, if any: its title and its lines so far.
pub type OpenChapter = Option<(Seq<char>, Seq<Seq<char>>)>;

/// The chapter that ends here, if one was open: its lines joined by `\\n` and trimmed.
pub open spec fn flush(cur: OpenChapter) -> Seq<ChapterView> {
    match cur {
        Some((t, b)) => seq![(t, trim(join(b, seq!['\n'])))],
        None => Seq::empty(),
    }
}

/// The chapters of the remaining lines: each `## ` line opens a chapter
/// titled by the rest of the line, trimmed; lines before the first heading
/// belong to none.
pub open spec fn chapter_scan(ls: Seq<Seq<char>>, cur: OpenChapter) -> Seq<ChapterView>
    decreases ls.len(),
{
    if ls.len() == 0 {
        flush(cur)
    } else if starts_with(ls[0], h2_mark()) {
        flush(cur) + chapter_scan(
            ls.drop_first(),
            Some((trim(ls[0].subrange(3, ls[0].len() as int)), Seq::empty())),
        )
    } else {
        match cur {
            Some((t, b)) => chapter_scan(ls.drop_first(), Some((t, b.push(ls[0])))),
            None => chapter_scan(ls.drop_first(), None),
        }
    }
}

/// A navigation chapter (table of contents, objectives), judged on its
/// title in lowercase.
pub open spec fn is_nav_chapter(lower: Seq<char>) -> bool {
    contains_str(lower, "table des matières"@) || contains_str(lower, "objectifs"@)
        || contains_str(lower, "table of contents"@)
}

/// The chapters kept: not navigation, and not empty once trimmed.
pub open spec fn keep_chapters(cs: Seq<ChapterView>) -> Seq<ChapterView>
    decreases cs.len(),
{
    if cs.len() == 0 {
        Seq::empty()
    } else {
        let rest = keep_chapters(cs.drop_first());
        if !is_nav_chapter(lowercase(cs[0].0)) && trim(cs[0].1).len() > 0 {
            seq![cs[0]] + rest
        } else {
            rest
        }
    }
}

/// The chapters of a course.
pub open spec fn chapters_of(content: Seq<char>) -> Seq<ChapterView> {
    keep_chapters(chapter_scan(lines(content), None))
}

/// The view of a list of chapters.
pub open spec fn chapters_view(v: Seq<(String, String)>) -> Seq<ChapterView> {
    v.map_values(|c: (String, String)| (c.0@, c.1@))
}

/// The view of a list of chapters held as characters.
pub open spec fn chapter_chars_view(v: Seq<(Vec<char>, Vec<char>)>) -> Seq<ChapterView> {
    v.map_values(|c: (Vec<char>, Vec<char>)| (c.0@, c.1@))
}

/// Whether a chapter title, in lowercase, names a navigation chapter.
pub fn is_nav_chapter_title(lowered: &str) -> (r: bool)
    ensures
        r == is_nav_chapter(lowered@),
{
    let l = chars_of(lowered);
    let a = chars_of("table des matières");
    let b = chars_of("objectifs");
    let c = chars_of("table of contents");
    contains(l.as_slice(), a.as_slice()) || contains(l.as_slice(), b.as_slice()) || contains(
        l.as_slice(),
        c.as_slice(),
    )
}

/// A copy of a line.
fn copy_of(l: &Vec<char>) -> (r: Vec<char>)
    ensures
        r@ == l@,
{
    let mut r: Vec<char> = Vec::new();
    append_chars(&mut r, l.as_slice());
    r
}

/// Cuts a course into chapters on its `## Title` lines: each chapter is its
/// title and its raw content. Tables of contents, objectives and empty
/// chapters are left out.
pub fn split_chapitres(content: &str) -> (r: Vec<(String, String)>)
    ensures
        chapters_view(r@) == chapters_of(content@),
{
    let cs = chars_of(content);
    let ls = lines_of(cs.as_slice());
    let h2 = vec!['#', '#', ' '];
    let nl = vec!['\n'];
    assert(h2@ == h2_mark());
    assert(nl@ == seq!['\n']);
    let mut found: Vec<(Vec<char>, Vec<char>)> = Vec::new();
    let mut has_cur = false;
    let mut cur_title: Vec<char> = Vec::new();
    let mut cur_lines: Vec<Vec<char>> = Vec::new();
    let mut k: usize = 0;
    assert(views(ls@).subrange(0, ls@.len() as int) =~= views(ls@));
    while k < ls.len()
        invariant
            h2@ == h2_mark(),
            nl@ == seq!['\n'],
            views(ls@) == lines(content@),
            k <= ls@.len(),
            chapter_chars_view(found@) + chapter_scan(
                views(ls@).subrange(k as int, ls@.len() as int),
                if has_cur {
                    Some((cur_title@, views(cur_lines@)))
                } else {
                    None
                },
            ) == chapter_scan(views(ls@), None),
        decreases ls@.len() - k,
    {
        let ghost rest = views(ls@).subrange(k as int, ls@.len() as int);
        let ghost cur = if has_cur {
            Some((cur_title@, views(cur_lines@)))
        } else {
            None::<(Seq<char>, Seq<Seq<char>>)>
        };
        let ghost old_found = found@;
        assert(rest[0] == ls@[k as int]@);
        assert(rest.drop_first() =~= views(ls@).subrange(k + 1, ls@.len() as int));
        let line = &ls[k];
        if has_prefix(line.as_slice(), h2.as_slice()) {
            if has_cur {
                let raw = trimmed(join_all(&cur_lines, nl.as_slice()).as_slice());
                found.push((copy_of(&cur_title), raw));
            }
            assert(chapter_chars_view(found@) =~= chapter_chars_view(old_found) + flush(cur));
            let n = line.len();
            cur_title = trimmed(copy_range(line.as_slice(), 3, n).as_slice());
            cur_lines = Vec::new();
            has_cur = true;
            assert(views(cur_lines@) =~= Seq::<Seq<char>>::empty());
        } else if has_cur {
            let ghost before = views(cur_lines@);
            cur_lines.push(copy_of(line));
            assert(views(cur_lines@) =~= before.push(ls@[k as int]@));
        }
        k = k + 1;
    }
    if has_cur {
        let ghost old_found = found@;
        let raw = trimmed(join_all(&cur_lines, nl.as_slice()).as_slice());
        found.push((copy_of(&cur_title), raw));
        assert(chapter_chars_view(found@) =~= chapter_chars_view(old_found) + flush(
            Some((cur_title@, views(cur_lines@))),
        ));
    }
    assert(views(ls@).subrange(k as int, ls@.len() as int) =~= Seq::<Seq<char>>::empty());
    let ghost all = chapter_chars_view(found@);
    assert(all == chapter_scan(lines(content@), None));
    let mut out: Vec<(String, String)> = Vec::new();
    let mut m: usize = found.len();
    assert(all.subrange(m as int, all.len() as int) =~= Seq::<ChapterView>::empty());
    while m > 0
        invariant
            m <= found@.len(),
            all == chapter_chars_view(found@),
            chapters_view(out@) == keep_chapters(all.subrange(m as int, all.len() as int)),
        decreases m,
    {
        m = m - 1;
        let title = &found[m].0;
        let raw = &found[m].1;
        let lower = string_of(lowercase_chars(title.as_slice()).as_slice());
        let keep = !is_nav_chapter_title(lower.as_str()) && trimmed(raw.as_slice()).len() > 0;
        let ghost sub = all.subrange(m as int, all.len() as int);
        assert(sub[0] == (title@, raw@));
        assert(sub.drop_first() =~= all.subrange(m + 1, all.len() as int));
        if keep {
            let ghost before = chapters_view(out@);
            out.insert(0, (string_of(title.as_slice()), string_of(raw.as_slice())));
            assert(chapters_view(out@) =~= seq![(title@, raw@)] + before);
        }
    }
    assert(all.subrange(0, all.len() as int) =~= all);
    out
}


/// The number of lines from `i` on before the first line that `stop` holds of.
pub open spec fn run_until(ls: Seq<Seq<char>>, i: int, stop: spec_fn(Seq<char>) -> bool) -> nat
    decreases ls.len() - i,
{
    if i < 0 || i >= ls.len() || stop(ls[i]) {
        0
    } else {
        1 + run_until(ls, i + 1, stop)
    }
}

pub proof fn lemma_run_until(
    ls: Seq<Seq<char>>,
    a: int,
    j: int,
    stop: spec_fn(Seq<char>) -> bool,
)
    requires
        0 <= a <= j <= ls.len(),
        forall|m: int| a <= m < j ==> !stop(#[trigger] ls[m]),
        j < ls.len() ==> stop(ls[j]),
    ensures
        a + run_until(ls, a, stop) == j,
    decreases j - a,
{
    if a < j {
        lemma_run_until(ls, a + 1, j, stop);
    }
}

pub proof fn lemma_run_until_bound(ls: Seq<Seq<char>>, i: int, stop: spec_fn(Seq<char>) -> bool)
    requires
        0 <= i <= ls.len(),
    ensures
        i + run_until(ls, i, stop) <= ls.len(),
    decreases ls.len() - i,
{
    if i < ls.len() && !stop(ls[i]) {
        lemma_run_until_bound(ls, i + 1, stop);
    }
}

/// A `### ` line.
pub open spec fn is_h3_line() -> spec_fn(Seq<char>) -> bool {
    |l: Seq<char>| starts_with(l, h3_mark())
}

/// A fence line.
pub open spec fn is_fence_line() -> spec_fn(Seq<char>) -> bool {
    |l: Seq<char>| starts_with(l, seq!['`', '`', '`'])
}

/// A line that ends a paragraph: blank, a fence or a `### ` line.
pub open spec fn is_para_end() -> spec_fn(Seq<char>) -> bool {
    |l: Seq<char>|
        trim(l).len() == 0 || starts_with(l, seq!['`', '`', '`']) || starts_with(l, h3_mark())
}

/// A block whose content is non-empty, or nothing.
pub open spec fn block_if(h: Option<Seq<char>>, c: Seq<char>, t: Seq<char>) -> Seq<
    (Option<Seq<char>>, Seq<char>, Seq<char>),
> {
    if c.len() > 0 {
        seq![(h, c, t)]
    } else {
        Seq::empty()
    }
}

/// The blocks of a chapter from line `i` on: a `### ` line heads a block made
/// of the lines up to the next `### `; a fence line opens a `code` block that
/// runs to the closing fence, included; blank lines are skipped; any other
/// line starts a paragraph that runs to the next blank, fence or `### ` line.
/// Contents are the lines joined by `\\n` and trimmed, and empty ones are left out.
pub open spec fn blocks_from(ls: Seq<Seq<char>>, i: int) -> Seq<
    (Option<Seq<char>>, Seq<char>, Seq<char>),
>
    decreases ls.len() - i,
{
    if i < 0 || i >= ls.len() {
        Seq::empty()
    } else if starts_with(ls[i], h3_mark()) {
        let j = i + 1 + run_until(ls, i + 1, is_h3_line());
        proof {
            lemma_run_until_bound(ls, i + 1, is_h3_line());
        }
        let body = trim(join(ls.subrange(i + 1, j), seq!['\n']));
        block_if(
            Some(trim(ls[i].subrange(4, ls[i].len() as int))),
            body,
            block_type_of(body),
        ) + blocks_from(ls, j)
    } else if starts_with(ls[i], seq!['`', '`', '`']) {
        let j = i + 1 + run_until(ls, i + 1, is_fence_line());
        proof {
            lemma_run_until_bound(ls, i + 1, is_fence_line());
        }
        let e = if j < ls.len() {
            j + 1
        } else {
            j
        };
        let c = trim(join(ls.subrange(i, e), seq!['\n']));
        block_if(None, c, "code"@) + blocks_from(ls, e)
    } else if trim(ls[i]).len() == 0 {
        blocks_from(ls, i + 1)
    } else {
        let j = i + run_until(ls, i, is_para_end());
        proof {
            lemma_run_until_bound(ls, i, is_para_end());
        }
        let c = trim(join(ls.subrange(i, j), seq!['\n']));
        block_if(None, c, block_type_of(c)) + blocks_from(ls, j)
    }
}

/// The blocks of a chapter's raw content.
pub open spec fn chapter_blocks(raw: Seq<char>) -> Seq<(Option<Seq<char>>, Seq<char>, Seq<char>)> {
    blocks_from(lines(raw), 0)
}

/// The view of a list of course blocks.
pub open spec fn course_blocks_view(v: Seq<(Option<String>, String, &'static str)>) -> Seq<
    (Option<Seq<char>>, Seq<char>, Seq<char>),
> {
    v.map_values(
        |b: (Option<String>, String, &'static str)|
            (
                match b.0 {
                    Some(h) => Some(h@),
                    None => None,
                },
                b.1@,
                b.2@,
            ),
    )
}

/// The trimmed join of `ls[a..b]` and its block, if non-empty.
fn push_block(
    out: &mut Vec<(Option<String>, String, &'static str)>,
    ls: &Vec<Vec<char>>,
    a: usize,
    b: usize,
    heading: Option<String>,
    code: bool,
)
    requires
        a <= b <= ls@.len(),
    ensures
        ({
            let c = trim(join(views(ls@).subrange(a as int, b as int), seq!['\n']));
            course_blocks_view(final(out)@) == course_blocks_view(old(out)@) + block_if(
                match heading {
                    Some(h) => Some(h@),
                    None => None,
                },
                c,
                if code {
                    "code"@
                } else {
                    block_type_of(c)
                },
            )
        }),
{
    let nl = vec!['\n'];
    assert(nl@ == seq!['\n']);
    let joined = crate::text::join_range(ls, a, b, nl.as_slice());
    let c = trimmed(joined.as_slice());
    let ghost before = course_blocks_view(out@);
    if c.len() > 0 {
        let s = string_of(c.as_slice());
        let t: &'static str = if code {
            "code"
        } else {
            detect_block_type(s.as_str())
        };
        out.push((heading, s, t));
    }
    assert(course_blocks_view(out@) =~= before + block_if(
        match heading {
            Some(h) => Some(h@),
            None => None,
        },
        c@,
        if code {
            "code"@
        } else {
            block_type_of(c@)
        },
    ));
}


/// Cuts the raw content of a chapter into blocks: each block is an optional
/// `### ` heading, a content and a block type.
pub fn split_blocks(raw: &str) -> (r: Vec<(Option<String>, String, &'static str)>)
    ensures
        course_blocks_view(r@) == chapter_blocks(raw@),
{
    let cs = chars_of(raw);
    let ls = lines_of(cs.as_slice());
    let n = ls.len();
    let h3 = vec!['#', '#', '#', ' '];
    let fe = vec!['`', '`', '`'];
    assert(h3@ == h3_mark());
    assert(fe@ == seq!['`', '`', '`']);
    let ghost lv = views(ls@);
    let mut out: Vec<(Option<String>, String, &'static str)> = Vec::new();
    let mut i: usize = 0;
    assert(course_blocks_view(out@) =~= Seq::<(Option<Seq<char>>, Seq<char>, Seq<char>)>::empty());
    while i < n
        invariant
            n == ls@.len(),
            lv == views(ls@),
            lv == lines(raw@),
            h3@ == h3_mark(),
            fe@ == seq!['`', '`', '`'],
            i <= n,
            course_blocks_view(out@) + blocks_from(lv, i as int) == blocks_from(lv, 0),
        decreases n - i,
    {
        assert(lv[i as int] == ls@[i as int]@);
        let ghost before = course_blocks_view(out@);
        if has_prefix(ls[i].as_slice(), h3.as_slice()) {
            let len_i = ls[i].len();
            let heading = string_of(trimmed(copy_range(ls[i].as_slice(), 4, len_i).as_slice()).as_slice());
            let mut j = i + 1;
            while j < n && !has_prefix(ls[j].as_slice(), h3.as_slice())
                invariant
                    n == ls@.len(),
                    lv == views(ls@),
                    h3@ == h3_mark(),
                    i + 1 <= j <= n,
                    forall|m: int| i + 1 <= m < j ==> !is_h3_line()(#[trigger] lv[m]),
                decreases n - j,
            {
                assert(lv[j as int] == ls@[j as int]@);
                j = j + 1;
            }
            proof {
                if j < n {
                    assert(lv[j as int] == ls@[j as int]@);
                }
                lemma_run_until(lv, i + 1, j as int, is_h3_line());
            }
            push_block(&mut out, &ls, i + 1, j, Some(heading), false);
            i = j;
        } else if has_prefix(ls[i].as_slice(), fe.as_slice()) {
            let mut j = i + 1;
            while j < n && !has_prefix(ls[j].as_slice(), fe.as_slice())
                invariant
                    n == ls@.len(),
                    lv == views(ls@),
                    fe@ == seq!['`', '`', '`'],
                    i + 1 <= j <= n,
                    forall|m: int| i + 1 <= m < j ==> !is_fence_line()(#[trigger] lv[m]),
                decreases n - j,
            {
                assert(lv[j as int] == ls@[j as int]@);
                j = j + 1;
            }
            proof {
                if j < n {
                    assert(lv[j as int] == ls@[j as int]@);
                }
                lemma_run_until(lv, i + 1, j as int, is_fence_line());
            }
            let e = if j < n {
                j + 1
            } else {
                j
            };
            push_block(&mut out, &ls, i, e, None, true);
            i = e;
        } else if trimmed(ls[i].as_slice()).len() == 0 {
            i = i + 1;
        } else {
            let mut j = i;
            while j < n && !(trimmed(ls[j].as_slice()).len() == 0 || has_prefix(
                ls[j].as_slice(),
                fe.as_slice(),
            ) || has_prefix(ls[j].as_slice(), h3.as_slice()))
                invariant
                    n == ls@.len(),
                    lv == views(ls@),
                    fe@ == seq!['`', '`', '`'],
                    h3@ == h3_mark(),
                    i <= j <= n,
                    forall|m: int| i <= m < j ==> !is_para_end()(#[trigger] lv[m]),
                decreases n - j,
            {
                assert(lv[j as int] == ls@[j as int]@);
                j = j + 1;
            }
            proof {
                if j < n {
                    assert(lv[j as int] == ls@[j as int]@);
                }
                lemma_run_until(lv, i as int, j as int, is_para_end());
            }
            push_block(&mut out, &ls, i, j, None, false);
            i = j;
        }
    }
    assert(blocks_from(lv, i as int) =~= Seq::<(Option<Seq<char>>, Seq<char>, Seq<char>)>::empty());
    assert(course_blocks_view(out@) + Seq::<(Option<Seq<char>>, Seq<char>, Seq<char>)>::empty()
        =~= course_blocks_view(out@));
    out
}


/// The slug of a chapter: `{course}-{slug of its title}`.
pub fn chapter_slug(course_slug: &str, title: &str) -> (r: String)
    ensures
        r@ == course_slug@ + seq!['-'] + slug_of_lowered(lowercase(title@)),
{
    let mut v = chars_of(course_slug);
    v.push('-');
    let t = slugify(title);
    append_chars(&mut v, chars_of(t.as_str()).as_slice());
    string_of(v.as_slice())
}


/// Only ASCII letters, digits and dashes.
pub open spec fn slug_chars(s: Seq<char>) -> bool {
    forall|k: int| 0 <= k < s.len() ==> is_ascii_alnum(#[trigger] s[k]) || s[k] == '-'
}

/// No dash follows a dash.
pub open spec fn no_double_dash(s: Seq<char>) -> bool {
    forall|k: int| 0 <= k < s.len() - 1 ==> !(#[trigger] s[k] == '-' && s[k + 1] == '-')
}

/// The shape of a slug: ASCII letters, digits and single dashes, not
/// starting with a dash, at most 80 characters long.
pub open spec fn is_slug(s: Seq<char>) -> bool {
    &&& slug_chars(s)
    &&& no_double_dash(s)
    &&& s.len() > 0 ==> s[0] != '-'
    &&& s.len() <= 80
}

proof fn lemma_slug_map_chars(s: Seq<char>)
    ensures
        slug_chars(slug_map(s)),
    decreases s.len(),
{
    if s.len() > 0 {
        lemma_slug_map_chars(s.drop_last());
        let a = slug_map(s.drop_last());
        let b = slug_piece(s.last());
        assert forall|k: int| 0 <= k < (a + b).len() implies is_ascii_alnum(#[trigger] (a + b)[k]) || (a + b)[k] == '-' by {
            if k >= a.len() {
                assert((a + b)[k] == b[k - a.len()]);
            }
        }
    }
}

proof fn lemma_collapse(s: Seq<char>)
    requires
        slug_chars(s),
    ensures
        slug_chars(collapse_dashes(s)),
        no_double_dash(collapse_dashes(s)),
        s.len() > 0 ==> collapse_dashes(s).len() > 0 && collapse_dashes(s).last() == s.last(),
    decreases s.len(),
{
    if s.len() > 0 {
        let p = s.drop_last();
        assert forall|k: int| 0 <= k < p.len() implies is_ascii_alnum(#[trigger] p[k]) || p[k] == '-' by {
            assert(p[k] == s[k]);
        }
        lemma_collapse(p);
        let c = collapse_dashes(p);
        if s.len() >= 2 && s.last() == '-' && s[s.len() - 2] == '-' {
            assert(p.last() == s[s.len() - 2]);
        } else {
            let r = c.push(s.last());
            assert forall|k: int| 0 <= k < r.len() implies is_ascii_alnum(#[trigger] r[k]) || r[k] == '-' by {
                if k < c.len() {
                    assert(r[k] == c[k]);
                }
            }
            assert forall|k: int| 0 <= k < r.len() - 1 implies !(#[trigger] r[k] == '-' && r[k + 1] == '-') by {
                if k < c.len() - 1 {
                    assert(r[k] == c[k] && r[k + 1] == c[k + 1]);
                } else {
                    assert(k == c.len() - 1);
                    if p.len() > 0 {
                        assert(c.last() == p.last());
                        assert(p.last() == s[s.len() - 2]);
                    }
                }
            }
        }
    }
}

proof fn lemma_trim_dash_start(s: Seq<char>)
    ensures
        exists|i: int| 0 <= i <= s.len() && trim_char_start(s, '-') == s.subrange(i, s.len() as int),
        trim_char_start(s, '-').len() > 0 ==> trim_char_start(s, '-')[0] != '-',
    decreases s.len(),
{
    if s.len() > 0 && s[0] == '-' {
        lemma_trim_dash_start(s.drop_first());
        let i = choose|i: int| 0 <= i <= s.drop_first().len() && trim_char_start(s.drop_first(), '-') == s.drop_first().subrange(i, s.drop_first().len() as int);
        assert(s.drop_first().subrange(i, s.drop_first().len() as int) =~= s.subrange(i + 1, s.len() as int));
    } else {
        assert(s.subrange(0, s.len() as int) =~= s);
    }
}

proof fn lemma_trim_dash_end(s: Seq<char>)
    ensures
        exists|j: int| 0 <= j <= s.len() && trim_char_end(s, '-') == s.subrange(0, j),
        trim_char_end(s, '-').len() > 0 ==> trim_char_end(s, '-').last() != '-',
    decreases s.len(),
{
    if s.len() > 0 && s.last() == '-' {
        lemma_trim_dash_end(s.drop_last());
        let j = choose|j: int| 0 <= j <= s.drop_last().len() && trim_char_end(s.drop_last(), '-') == s.drop_last().subrange(0, j);
        assert(s.drop_last().subrange(0, j) =~= s.subrange(0, j));
    } else {
        assert(s.subrange(0, s.len() as int) =~= s);
    }
}

proof fn lemma_sub_keeps_shape(s: Seq<char>, i: int, j: int)
    requires
        0 <= i <= j <= s.len(),
        slug_chars(s),
        no_double_dash(s),
    ensures
        slug_chars(s.subrange(i, j)),
        no_double_dash(s.subrange(i, j)),
{
    let t = s.subrange(i, j);
    assert forall|k: int| 0 <= k < t.len() implies is_ascii_alnum(#[trigger] t[k]) || t[k] == '-' by {
        assert(t[k] == s[k + i]);
    }
    assert forall|k: int| 0 <= k < t.len() - 1 implies !(#[trigger] t[k] == '-' && t[k + 1] == '-') by {
        assert(t[k] == s[k + i] && t[k + 1] == s[k + i + 1]);
    }
}

/// The text after dashes are collapsed and trimmed, before the cut to 80.
pub open spec fn slug_uncut(lowered: Seq<char>) -> Seq<char> {
    trim_char(collapse_dashes(slug_map(lowered)), '-')
}

proof fn lemma_uncut_shape(lowered: Seq<char>)
    ensures
        slug_chars(slug_uncut(lowered)),
        no_double_dash(slug_uncut(lowered)),
        slug_uncut(lowered).len() > 0 ==> slug_uncut(lowered)[0] != '-' && slug_uncut(lowered).last() != '-',
{
    let m = slug_map(lowered);
    lemma_slug_map_chars(m.subrange(0, 0));
    lemma_slug_map_chars(lowered);
    lemma_collapse(m);
    let c = collapse_dashes(m);
    lemma_trim_dash_start(c);
    let a = trim_char_start(c, '-');
    let i = choose|i: int| 0 <= i <= c.len() && a == c.subrange(i, c.len() as int);
    lemma_sub_keeps_shape(c, i, c.len() as int);
    lemma_trim_dash_end(a);
    let b = trim_char_end(a, '-');
    let j = choose|j: int| 0 <= j <= a.len() && b == a.subrange(0, j);
    lemma_sub_keeps_shape(a, 0, j);
    if b.len() > 0 {
        assert(b[0] == a[0]);
    }
}

/// Every slug has the shape of a slug; one shorter than 80 characters also
/// does not end with a dash.
pub proof fn law_slug_shape(lowered: Seq<char>)
    ensures
        is_slug(slug_of_lowered(lowered)),
        slug_of_lowered(lowered).len() < 80 ==> slug_of_lowered(lowered).len() == 0
            || slug_of_lowered(lowered).last() != '-',
{
    lemma_uncut_shape(lowered);
    let t = slug_uncut(lowered);
    if t.len() > 80 {
        lemma_sub_keeps_shape(t, 0, 80);
        assert(t.subrange(0, 80)[0] == t[0]);
    }
}

proof fn lemma_slug_map_identity(s: Seq<char>)
    requires
        slug_chars(s),
    ensures
        slug_map(s) == s,
    decreases s.len(),
{
    if s.len() > 0 {
        let p = s.drop_last();
        assert forall|k: int| 0 <= k < p.len() implies is_ascii_alnum(#[trigger] p[k]) || p[k] == '-' by {
            assert(p[k] == s[k]);
        }
        lemma_slug_map_identity(p);
        assert(is_ascii_alnum(s.last()) || s.last() == '-');
        assert(slug_piece(s.last()) == seq![s.last()]);
        assert(p + seq![s.last()] =~= s);
    }
}

proof fn lemma_collapse_identity(s: Seq<char>)
    requires
        no_double_dash(s),
    ensures
        collapse_dashes(s) == s,
    decreases s.len(),
{
    if s.len() > 0 {
        let p = s.drop_last();
        assert forall|k: int| 0 <= k < p.len() - 1 implies !(#[trigger] p[k] == '-' && p[k + 1] == '-') by {
            assert(p[k] == s[k] && p[k + 1] == s[k + 1]);
        }
        lemma_collapse_identity(p);
        if s.len() >= 2 {
            assert(!(s[s.len() - 2] == '-' && s[s.len() - 1] == '-'));
        }
        assert(p.push(s.last()) =~= s);
    }
}

/// Taking the slug of a slug gives it back, unless the cut to 80
/// characters left it ending with a dash.
pub proof fn law_slug_idempotent(lowered: Seq<char>)
    requires
        slug_of_lowered(lowered).len() == 0 || slug_of_lowered(lowered).last() != '-',
    ensures
        slug_of_lowered(slug_of_lowered(lowered)) == slug_of_lowered(lowered),
{
    let y = slug_of_lowered(lowered);
    law_slug_shape(lowered);
    lemma_slug_map_identity(y);
    lemma_collapse_identity(y);
    assert(trim_char_start(y, '-') == y);
    assert(trim_char_end(y, '-') == y);
}


proof fn lemma_blocks_from_nonempty(ls: Seq<Seq<char>>, i: int)
    ensures
        forall|k: int| 0 <= k < blocks_from(ls, i).len() ==> (#[trigger] blocks_from(ls, i)[k]).1.len() > 0,
    decreases ls.len() - i,
{
    if 0 <= i < ls.len() {
        if starts_with(ls[i], h3_mark()) {
            let j = i + 1 + run_until(ls, i + 1, is_h3_line());
            lemma_run_until_bound(ls, i + 1, is_h3_line());
            lemma_blocks_from_nonempty(ls, j);
            let body = trim(join(ls.subrange(i + 1, j), seq!['\n']));
            let a = block_if(Some(trim(ls[i].subrange(4, ls[i].len() as int))), body, block_type_of(body));
            let b = blocks_from(ls, j);
            assert(blocks_from(ls, i) == a + b);
            assert forall|k: int| 0 <= k < (a + b).len() implies (#[trigger] (a + b)[k]).1.len() > 0 by {
                if k >= a.len() {
                    assert((a + b)[k] == b[k - a.len()]);
                }
            }
        } else if starts_with(ls[i], seq!['`', '`', '`']) {
            let j = i + 1 + run_until(ls, i + 1, is_fence_line());
            lemma_run_until_bound(ls, i + 1, is_fence_line());
            let e = if j < ls.len() {
                j + 1
            } else {
                j
            };
            lemma_blocks_from_nonempty(ls, e);
            let c = trim(join(ls.subrange(i, e), seq!['\n']));
            let a = block_if(None, c, "code"@);
            let b = blocks_from(ls, e);
            assert(blocks_from(ls, i) == a + b);
            assert forall|k: int| 0 <= k < (a + b).len() implies (#[trigger] (a + b)[k]).1.len() > 0 by {
                if k >= a.len() {
                    assert((a + b)[k] == b[k - a.len()]);
                }
            }
        } else if trim(ls[i]).len() == 0 {
            lemma_blocks_from_nonempty(ls, i + 1);
            assert(blocks_from(ls, i) == blocks_from(ls, i + 1));
        } else {
            let j = i + run_until(ls, i, is_para_end());
            lemma_run_until_bound(ls, i, is_para_end());
            lemma_blocks_from_nonempty(ls, j);
            let c = trim(join(ls.subrange(i, j), seq!['\n']));
            let a = block_if(None, c, block_type_of(c));
            let b = blocks_from(ls, j);
            assert(blocks_from(ls, i) == a + b);
            assert forall|k: int| 0 <= k < (a + b).len() implies (#[trigger] (a + b)[k]).1.len() > 0 by {
                if k >= a.len() {
                    assert((a + b)[k] == b[k - a.len()]);
                }
            }
        }
    }
}

/// Every block of a chapter has some content.
pub proof fn law_chapter_blocks_nonempty(raw: Seq<char>)
    ensures
        forall|k: int| 0 <= k < chapter_blocks(raw).len() ==> (#[trigger] chapter_blocks(raw)[k]).1.len() > 0,
{
    lemma_blocks_from_nonempty(lines(raw), 0);
}

proof fn lemma_kept_chapters(cs: Seq<ChapterView>)
    ensures
        forall|k: int|
            0 <= k < keep_chapters(cs).len() ==> !is_nav_chapter(lowercase((#[trigger] keep_chapters(cs)[k]).0))
                && trim(keep_chapters(cs)[k].1).len() > 0,
    decreases cs.len(),
{
    if cs.len() > 0 {
        lemma_kept_chapters(cs.drop_first());
        let rest = keep_chapters(cs.drop_first());
        if !is_nav_chapter(lowercase(cs[0].0)) && trim(cs[0].1).len() > 0 {
            let all = seq![cs[0]] + rest;
            assert forall|k: int| 0 <= k < all.len() implies !is_nav_chapter(lowercase((#[trigger] all[k]).0)) && trim(all[k].1).len() > 0 by {
                if k > 0 {
                    assert(all[k] == rest[k - 1]);
                }
            }
        }
    }
}

/// No kept chapter is a table of contents or objectives, and none is empty.
pub proof fn law_chapters_kept(content: Seq<char>)
    ensures
        forall|k: int|
            0 <= k < chapters_of(content).len() ==> !is_nav_chapter(lowercase((#[trigger] chapters_of(content)[k]).0))
                && trim(chapters_of(content)[k].1).len() > 0,
{
    lemma_kept_chapters(chapter_scan(lines(content), None));
}


proof fn lemma_occurs_trans(a: Seq<char>, o1: int, b: Seq<char>, o2: int, c: Seq<char>)
    requires
        occurs_at(a, o1, b),
        occurs_at(b, o2, c),
    ensures
        occurs_at(a, o1 + o2, c),
{
    assert(a.subrange(o1 + o2, o1 + o2 + c.len()) =~= b.subrange(o2, o2 + c.len()));
}

proof fn lemma_occurs_contains(s: Seq<char>, o: int, p: Seq<char>)
    requires
        occurs_at(s, o, p),
    ensures
        contains_str(s, p),
{
    lemma_find_str(s, p);
}

/// Where line `t` stands in the join of `xs`.
proof fn lemma_join_has(xs: Seq<Seq<char>>, sep: Seq<char>, t: int) -> (o: int)
    requires
        0 <= t < xs.len(),
    ensures
        occurs_at(join(xs, sep), o, xs[t]),
    decreases xs.len(),
{
    if xs.len() == 1 {
        assert(join(xs, sep).subrange(0, xs[0].len() as int) =~= xs[0]);
        0
    } else {
        let pre = join(xs.drop_last(), sep);
        let all = join(xs, sep);
        assert(all == pre + sep + xs.last());
        if t == xs.len() - 1 {
            let o = (pre.len() + sep.len()) as int;
            assert(all.subrange(o, o + xs[t].len()) =~= xs[t]);
            o
        } else {
            let o = lemma_join_has(xs.drop_last(), sep, t);
            assert(xs.drop_last()[t] == xs[t]);
            assert(all.subrange(o, o + xs[t].len()) =~= pre.subrange(o, o + xs[t].len()));
            o
        }
    }
}

proof fn lemma_trim_start_window(s: Seq<char>)
    ensures
        trim_start(s).len() <= s.len(),
        trim_start(s) == s.subrange(s.len() - trim_start(s).len(), s.len() as int),
        trim_start(s).len() > 0 ==> !is_ws(trim_start(s)[0]),
    decreases s.len(),
{
    if s.len() > 0 && is_ws(s[0]) {
        lemma_trim_start_window(s.drop_first());
        let t = trim_start(s.drop_first());
        assert(s.drop_first().subrange(s.len() - 1 - t.len(), s.len() - 1) =~= s.subrange(s.len() - t.len(), s.len() as int));
    } else {
        assert(s.subrange(0, s.len() as int) =~= s);
    }
}

proof fn lemma_trim_end_window(s: Seq<char>)
    ensures
        trim_end(s).len() <= s.len(),
        trim_end(s) == s.subrange(0, trim_end(s).len() as int),
        trim_end(s).len() > 0 ==> !is_ws(trim_end(s).last()),
    decreases s.len(),
{
    if s.len() > 0 && is_ws(s.last()) {
        lemma_trim_end_window(s.drop_last());
        let t = trim_end(s.drop_last());
        assert(s.drop_last().subrange(0, t.len() as int) =~= s.subrange(0, t.len() as int));
    } else {
        assert(s.subrange(0, s.len() as int) =~= s);
    }
}

/// A trimmed line stands in the line, and starts and ends with a non-blank character.
proof fn lemma_trim_window(s: Seq<char>) -> (o: int)
    ensures
        occurs_at(s, o, trim(s)),
        trim(s).len() > 0 ==> !is_ws(trim(s)[0]) && !is_ws(trim(s).last()),
{
    lemma_trim_start_window(s);
    let a = trim_start(s);
    lemma_trim_end_window(a);
    let b = trim_end(a);
    let o = s.len() - a.len();
    assert(s.subrange(o, o + b.len()) =~= a.subrange(0, b.len() as int));
    if b.len() > 0 {
        assert(b[0] == a[0]);
    }
    o
}

proof fn lemma_trim_start_keeps(t: Seq<char>, o: int, p: Seq<char>) -> (o2: int)
    requires
        occurs_at(t, o, p),
        p.len() > 0,
        !is_ws(p[0]),
    ensures
        occurs_at(trim_start(t), o2, p),
    decreases t.len(),
{
    if t.len() > 0 && is_ws(t[0]) {
        if o == 0 {
            assert(t[0] == t.subrange(o, o + p.len())[0]);
        }
        lemma_occurs_shift(t, o - 1, p);
        lemma_trim_start_keeps(t.drop_first(), o - 1, p)
    } else {
        o
    }
}

proof fn lemma_trim_end_keeps(t: Seq<char>, o: int, p: Seq<char>)
    requires
        occurs_at(t, o, p),
        p.len() > 0,
        !is_ws(p.last()),
    ensures
        occurs_at(trim_end(t), o, p),
    decreases t.len(),
{
    if t.len() > 0 && is_ws(t.last()) {
        if o + p.len() == t.len() {
            assert(t.last() == t.subrange(o, o + p.len()).last());
        }
        assert(t.drop_last().subrange(o, o + p.len()) =~= t.subrange(o, o + p.len()));
        lemma_trim_end_keeps(t.drop_last(), o, p);
    }
}

/// A non-blank line of `ls[a..b]` stands, trimmed, in the trimmed join of
/// those lines, which is therefore not empty.
proof fn lemma_segment_has_line(ls: Seq<Seq<char>>, a: int, b: int, k: int)
    requires
        0 <= a <= k < b <= ls.len(),
        trim(ls[k]).len() > 0,
    ensures
        contains_str(trim(join(ls.subrange(a, b), seq!['\n'])), trim(ls[k])),
        trim(join(ls.subrange(a, b), seq!['\n'])).len() > 0,
{
    let xs = ls.subrange(a, b);
    let p = trim(ls[k]);
    assert(xs[k - a] == ls[k]);
    let o1 = lemma_join_has(xs, seq!['\n'], k - a);
    let o2 = lemma_trim_window(ls[k]);
    let j = join(xs, seq!['\n']);
    lemma_occurs_trans(j, o1, ls[k], o2, p);
    let o3 = lemma_trim_start_keeps(j, o1 + o2, p);
    assert(p.last() == p[p.len() - 1]);
    lemma_trim_end_keeps(trim_start(j), o3, p);
    lemma_occurs_contains(trim(j), o3, p);
}

/// Every non-blank line from line `i` on that is not a `### ` line stands,
/// trimmed, in the content of some block of `blocks_from(ls, i)`.
proof fn lemma_blocks_cover(ls: Seq<Seq<char>>, i: int, k: int)
    requires
        0 <= i <= k < ls.len(),
        trim(ls[k]).len() > 0,
        !starts_with(ls[k], h3_mark()),
    ensures
        exists|m: int| 0 <= m < blocks_from(ls, i).len() && contains_str(#[trigger] blocks_from(ls, i)[m].1, trim(ls[k])),
    decreases ls.len() - i,
{
    let all = blocks_from(ls, i);
    if starts_with(ls[i], h3_mark()) {
        let j = i + 1 + run_until(ls, i + 1, is_h3_line());
        lemma_run_until_bound(ls, i + 1, is_h3_line());
        let body = trim(join(ls.subrange(i + 1, j), seq!['\n']));
        let a = block_if(Some(trim(ls[i].subrange(4, ls[i].len() as int))), body, block_type_of(body));
        let rest = blocks_from(ls, j);
        assert(all == a + rest);
        if k < j {
            lemma_segment_has_line(ls, i + 1, j, k);
            assert(all[0] == a[0]);
            assert(contains_str(all[0].1, trim(ls[k])));
        } else {
            lemma_blocks_cover(ls, j, k);
            let m = choose|m: int| 0 <= m < rest.len() && contains_str(#[trigger] rest[m].1, trim(ls[k]));
            assert(all[a.len() + m] == rest[m]);
        }
    } else if starts_with(ls[i], seq!['`', '`', '`']) {
        let j = i + 1 + run_until(ls, i + 1, is_fence_line());
        lemma_run_until_bound(ls, i + 1, is_fence_line());
        let e = if j < ls.len() { j + 1 } else { j };
        let c = trim(join(ls.subrange(i, e), seq!['\n']));
        let a = block_if(None, c, "code"@);
        let rest = blocks_from(ls, e);
        assert(all == a + rest);
        if k < e {
            lemma_segment_has_line(ls, i, e, k);
            assert(all[0] == a[0]);
            assert(contains_str(all[0].1, trim(ls[k])));
        } else {
            lemma_blocks_cover(ls, e, k);
            let m = choose|m: int| 0 <= m < rest.len() && contains_str(#[trigger] rest[m].1, trim(ls[k]));
            assert(all[a.len() + m] == rest[m]);
        }
    } else if trim(ls[i]).len() == 0 {
        assert(all == blocks_from(ls, i + 1));
        lemma_blocks_cover(ls, i + 1, k);
    } else {
        let j = i + run_until(ls, i, is_para_end());
        lemma_run_until_bound(ls, i, is_para_end());
        let c = trim(join(ls.subrange(i, j), seq!['\n']));
        let a = block_if(None, c, block_type_of(c));
        let rest = blocks_from(ls, j);
        assert(all == a + rest);
        if k < j {
            lemma_segment_has_line(ls, i, j, k);
            assert(all[0] == a[0]);
            assert(contains_str(all[0].1, trim(ls[k])));
        } else {
            assert(j > i);
            lemma_blocks_cover(ls, j, k);
            let m = choose|m: int| 0 <= m < rest.len() && contains_str(#[trigger] rest[m].1, trim(ls[k]));
            assert(all[a.len() + m] == rest[m]);
        }
    }
}

/// Cutting a chapter into blocks drops no text: every line that is not
/// blank and is not a `### ` heading line stands, trimmed, in the content
/// of some block.
pub proof fn law_blocks_keep_text(raw: Seq<char>, k: int)
    requires
        0 <= k < lines(raw).len(),
        trim(lines(raw)[k]).len() > 0,
        !starts_with(lines(raw)[k], h3_mark()),
    ensures
        exists|m: int|
            0 <= m < chapter_blocks(raw).len() && contains_str(#[trigger] chapter_blocks(raw)[m].1, trim(lines(raw)[k])),
{
    lemma_blocks_cover(lines(raw), 0, k);
    let bs = blocks_from(lines(raw), 0);
    let m = choose|m: int| 0 <= m < bs.len() && contains_str(#[trigger] bs[m].1, trim(lines(raw)[k]));
    assert(chapter_blocks(raw)[m] == bs[m]);
}


proof fn lemma_keep_chapters(cs: Seq<ChapterView>)
    ensures
        forall|k: int|
            0 <= k < cs.len() && !contains_str(lowercase((#[trigger] cs[k]).0), "table des matières"@)
                && !contains_str(lowercase(cs[k].0), "objectifs"@) && !contains_str(
                lowercase(cs[k].0),
                "table of contents"@,
            ) && trim(cs[k].1).len() > 0 ==> keep_chapters(cs).contains(cs[k]),
        forall|k: int|
            0 <= k < keep_chapters(cs).len() ==> {
                let c = #[trigger] keep_chapters(cs)[k];
                &&& cs.contains(c)
                &&& !contains_str(lowercase(c.0), "table des matières"@)
                &&& !contains_str(lowercase(c.0), "objectifs"@)
                &&& !contains_str(lowercase(c.0), "table of contents"@)
                &&& trim(c.1).len() > 0
            },
    decreases cs.len(),
{
    if cs.len() > 0 {
        let tail = cs.drop_first();
        lemma_keep_chapters(tail);
        let rest = keep_chapters(tail);
        let all = keep_chapters(cs);
        let keep0 = !is_nav_chapter(lowercase(cs[0].0)) && trim(cs[0].1).len() > 0;
        assert forall|k: int|
            0 <= k < cs.len() && !contains_str(lowercase((#[trigger] cs[k]).0), "table des matières"@)
                && !contains_str(lowercase(cs[k].0), "objectifs"@) && !contains_str(
                lowercase(cs[k].0),
                "table of contents"@,
            ) && trim(cs[k].1).len() > 0 implies all.contains(cs[k]) by {
            if k == 0 {
                assert(keep0);
                assert(all[0] == cs[0]);
            } else {
                assert(cs[k] == tail[k - 1]);
                assert(rest.contains(tail[k - 1]));
                let w = choose|w: int| 0 <= w < rest.len() && rest[w] == tail[k - 1];
                if keep0 {
                    assert(all[w + 1] == rest[w]);
                } else {
                    assert(all[w] == rest[w]);
                }
            }
        }
        assert forall|k: int| 0 <= k < all.len() implies {
            let c = #[trigger] all[k];
            &&& cs.contains(c)
            &&& !contains_str(lowercase(c.0), "table des matières"@)
            &&& !contains_str(lowercase(c.0), "objectifs"@)
            &&& !contains_str(lowercase(c.0), "table of contents"@)
            &&& trim(c.1).len() > 0
        } by {
            if keep0 && k == 0 {
                assert(all[0] == cs[0]);
            } else {
                let r = if keep0 { k - 1 } else { k };
                assert(all[k] == rest[r]);
                let c = rest[r];
                assert(tail.contains(c));
                let w = choose|w: int| 0 <= w < tail.len() && tail[w] == c;
                assert(cs[w + 1] == tail[w]);
            }
        }
    }
}

/// A chapter of a course is left out only when its lowercase title names a
/// table of contents or the objectives ("table des matières", "objectifs",
/// "table of contents") or its content is blank: every other chapter found
/// on a `## ` line is kept, and every kept chapter is such a chapter.
pub proof fn law_chapters_kept_unless_navigation(content: Seq<char>)
    ensures
        forall|k: int|
            0 <= k < chapter_scan(lines(content), None).len() && !contains_str(
                lowercase((#[trigger] chapter_scan(lines(content), None)[k]).0),
                "table des matières"@,
            ) && !contains_str(lowercase(chapter_scan(lines(content), None)[k].0), "objectifs"@)
                && !contains_str(lowercase(chapter_scan(lines(content), None)[k].0), "table of contents"@)
                && trim(chapter_scan(lines(content), None)[k].1).len() > 0 ==> chapters_of(content).contains(
                chapter_scan(lines(content), None)[k],
            ),
        forall|k: int|
            0 <= k < chapters_of(content).len() ==> {
                let c = #[trigger] chapters_of(content)[k];
                &&& chapter_scan(lines(content), None).contains(c)
                &&& !contains_str(lowercase(c.0), "table des matières"@)
                &&& !contains_str(lowercase(c.0), "objectifs"@)
                &&& !contains_str(lowercase(c.0), "table of contents"@)
                &&& trim(c.1).len() > 0
            },
{
    lemma_keep_chapters(chapter_scan(lines(content), None));
}

/// A French accented letter or `ç` without its accent.
pub open spec fn unaccented(c: char) -> char {
    if c == 'é' || c == 'è' || c == 'ê' || c == 'ë' {
        'e'
    } else if c == 'à' || c == 'â' || c == 'ä' {
        'a'
    } else if c == 'î' || c == 'ï' {
        'i'
    } else if c == 'ô' {
        'o'
    } else if c == 'ù' || c == 'û' || c == 'ü' {
        'u'
    } else if c == 'ç' {
        'c'
    } else {
        c
    }
}

proof fn lemma_slug_map_unaccented(s: Seq<char>)
    ensures
        slug_map(s) == slug_map(s.map_values(|c: char| unaccented(c))),
    decreases s.len(),
{
    if s.len() > 0 {
        let u = s.map_values(|c: char| unaccented(c));
        lemma_slug_map_unaccented(s.drop_last());
        assert(u.drop_last() =~= s.drop_last().map_values(|c: char| unaccented(c)));
        assert(u.last() == unaccented(s.last()));
        assert(slug_piece(s.last()) == slug_piece(unaccented(s.last())));
    }
}

/// No letter of a title is lost to its accent: the slug of a text is the
/// slug of the same text with `é è ê ë à â ä î ï ô ù û ü ç` written without
/// their accents.
pub proof fn law_slug_ignores_accents(lowered: Seq<char>)
    ensures
        slug_of_lowered(lowered) == slug_of_lowered(lowered.map_values(|c: char| unaccented(c))),
{
    lemma_slug_map_unaccented(lowered);
}


/// The type of a course block, from its trimmed content `s`: `code` exactly
/// when `s` starts with a code fence; otherwise `table` when `s` and its
/// first line start with `|` and that line ends with `|`; otherwise `list`
/// for `- `, `* ` or a digit and `. `; otherwise `warning` for `> `;
/// otherwise `text`. A block that starts with a letter is always `text`.
pub proof fn law_block_types(content: Seq<char>)
    ensures
        ({
            let s = trim(content);
            let l = first_line(s);
            let t = block_type_of(content);
            let code = s.len() >= 3 && s[0] == '`' && s[1] == '`' && s[2] == '`';
            let table = s.len() >= 1 && s[0] == '|' && l.len() >= 1 && l[0] == '|' && l[l.len() - 1] == '|';
            let list = s.len() >= 2 && ((s[0] == '-' || s[0] == '*') && s[1] == ' ') || s.len() >= 3 && '0'
                <= s[0] <= '9' && s[1] == '.' && s[2] == ' ';
            let warning = s.len() >= 2 && s[0] == '>' && s[1] == ' ';
            &&& (t == "code"@) <==> code
            &&& !code && table ==> t == "table"@
            &&& !code && !table && list ==> t == "list"@
            &&& !code && !table && !list && warning ==> t == "warning"@
            &&& !code && !table && !list && !warning ==> t == "text"@
            &&& s.len() > 0 && (('a' <= s[0] <= 'z') || ('A' <= s[0] <= 'Z')) ==> t == "text"@
        }),
{
    let s = trim(content);
    let l = first_line(s);
    reveal_strlit("code");
    reveal_strlit("table");
    reveal_strlit("list");
    reveal_strlit("warning");
    reveal_strlit("text");
    assert("code"@.len() == 4 && "table"@.len() == 5 && "list"@.len() == 4 && "warning"@.len() == 7
        && "text"@.len() == 4 && "code"@[0] == 'c' && "list"@[0] == 'l' && "text"@[0] == 't');
    if s.len() >= 3 {
        assert(s.subrange(0, 3) =~= seq![s[0], s[1], s[2]]);
    }
    if s.len() >= 2 {
        assert(s.subrange(0, 2) =~= seq![s[0], s[1]]);
    }
    if s.len() >= 1 {
        assert(s.subrange(0, 1) =~= seq![s[0]]);
    }
    if l.len() >= 1 {
        assert(l.subrange(0, 1) =~= seq![l[0]]);
        assert(l.subrange(l.len() - 1, l.len() as int) =~= seq![l[l.len() - 1]]);
    }
    let code = s.len() >= 3 && s[0] == '`' && s[1] == '`' && s[2] == '`';
    assert(starts_with(s, seq!['`', '`', '`']) <==> code) by {
        if s.len() >= 3 && starts_with(s, seq!['`', '`', '`']) {
            assert(s.subrange(0, 3)[0] == s[0] && s.subrange(0, 3)[1] == s[1] && s.subrange(0, 3)[2] == s[2]);
        }
    }
    assert(starts_with(s, seq!['|']) <==> (s.len() >= 1 && s[0] == '|')) by {
        if s.len() >= 1 && starts_with(s, seq!['|']) {
            assert(s.subrange(0, 1)[0] == s[0]);
        }
    }
    assert(starts_with(l, seq!['|']) <==> (l.len() >= 1 && l[0] == '|')) by {
        if l.len() >= 1 && starts_with(l, seq!['|']) {
            assert(l.subrange(0, 1)[0] == l[0]);
        }
    }
    assert(ends_with(l, seq!['|']) <==> (l.len() >= 1 && l[l.len() - 1] == '|')) by {
        if l.len() >= 1 && ends_with(l, seq!['|']) {
            assert(l.subrange(l.len() - 1, l.len() as int)[0] == l[l.len() - 1]);
        }
    }
    assert(starts_with(s, seq!['-', ' ']) <==> (s.len() >= 2 && s[0] == '-' && s[1] == ' ')) by {
        if s.len() >= 2 && starts_with(s, seq!['-', ' ']) {
            assert(s.subrange(0, 2)[0] == s[0] && s.subrange(0, 2)[1] == s[1]);
        }
    }
    assert(starts_with(s, seq!['*', ' ']) <==> (s.len() >= 2 && s[0] == '*' && s[1] == ' ')) by {
        if s.len() >= 2 && starts_with(s, seq!['*', ' ']) {
            assert(s.subrange(0, 2)[0] == s[0] && s.subrange(0, 2)[1] == s[1]);
        }
    }
    assert(starts_with(s, seq!['>', ' ']) <==> (s.len() >= 2 && s[0] == '>' && s[1] == ' ')) by {
        if s.len() >= 2 && starts_with(s, seq!['>', ' ']) {
            assert(s.subrange(0, 2)[0] == s[0] && s.subrange(0, 2)[1] == s[1]);
        }
    }
}


/// A text made only of lowercase ASCII letters and digits, at most 80
/// characters long, is its own slug: no letter or digit is dropped.
pub proof fn law_plain_text_is_its_slug(lowered: Seq<char>)
    requires
        lowered.len() <= 80,
        forall|k: int| 0 <= k < lowered.len() ==> ('a' <= #[trigger] lowered[k] <= 'z') || ('0' <= lowered[k] <= '9'),
    ensures
        slug_of_lowered(lowered) == lowered,
{
    assert(slug_chars(lowered));
    lemma_slug_map_identity(lowered);
    assert(no_double_dash(lowered));
    lemma_collapse_identity(lowered);
    if lowered.len() > 0 {
        assert(lowered[0] != '-');
        assert(lowered.last() == lowered[lowered.len() - 1]);
    }
    assert(trim_char_start(lowered, '-') == lowered);
    assert(trim_char_end(lowered, '-') == lowered);
}

} // verus!
