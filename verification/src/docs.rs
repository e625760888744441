//! The documentation seeder's reading of markdown pages: anchors, sort order,
//! title, lead and blocks, and how sections and pages get their slugs.

use vstd::prelude::*;
use crate::numbers::{parse_i32, parse_i32_chars};
use crate::names::{
    keys_of, law_name_order_sorted, lemma_order_insert_pos_bound, name_order, name_order_upto, order_by_name,
    order_insert_pos, Named,
};
use crate::text::{
    append_chars, chars_eq, chars_of, contains, contains_char, contains_str, copy_range, ends_with,
    find, find_in_suffix, has_suffix, lemma_span_until, lemma_span_until_bound, span_until,
    trim_char_end, trimmed_char_end,
    find_char, find_char_from, find_str, has_char, has_prefix, lemma_find_str,
    lines, lines_of, lowercase, lowercase_chars, split_on, split_str, starts_with, string_of,
    strip_prefixes, stripped_prefixes, trim, trim_start, trimmed, trimmed_start, views,
};

verus! {

/// The text that opens a GitHub HTML anchor.
pub open spec fn anchor_open() -> Seq<char> {
    seq!['<', 'a', ' ', 'i', 'd', '=']
}

/// The text that closes an HTML anchor.
pub open spec fn anchor_close() -> Seq<char> {
    seq!['<', '/', 'a', '>']
}

/// Where the text written so far stands after `head` is written: whether it
/// ends at the start of a line, and whether the line before is then empty.
pub open spec fn line_state_after(head: Seq<char>, at_start: bool, prev_blank: bool) -> (bool, bool) {
    if head.len() == 0 {
        (at_start, prev_blank)
    } else {
        let a = head.last() == '\n';
        (a, a && if head.len() >= 2 {
            head[head.len() - 2] == '\n'
        } else {
            at_start
        })
    }
}

/// How many line breaks are dropped at the start of `rest`, the text after
/// a removed anchor: none when the anchor shared its line with other text;
/// when it stood alone on its line, the break that ended that line, so that
/// no empty line is left in its place; and when the lines before and after
/// it are both empty, the break of the line after too, so that the two
/// empty lines become one.
pub open spec fn left_newlines(rest: Seq<char>, at_start: bool, prev_blank: bool) -> int {
    if at_start && rest.len() > 0 && rest[0] == '\n' {
        if prev_blank && rest.len() > 1 && rest[1] == '\n' {
            2
        } else {
            1
        }
    } else {
        0
    }
}

/// `s` without its GitHub anchors, written after text whose state is
/// `at_start` and `prev_blank`: from each `<a id=` to the next `</a>`, both
/// included, is removed, with the line breaks of `left_newlines`; an
/// `<a id=` with no `</a>` after it ends the removal and stays.
pub open spec fn strip_anchors_from(s: Seq<char>, at_start: bool, prev_blank: bool) -> Seq<char>
    decreases s.len(),
{
    match find_str(s, anchor_open()) {
        None => s,
        Some(i) => match find_str(s.subrange(i as int, s.len() as int), anchor_close()) {
            None => s,
            Some(e) => if i + e + 4 <= s.len() {
                let head = s.subrange(0, i as int);
                let st = line_state_after(head, at_start, prev_blank);
                let rest = s.subrange(i as int + e + 4, s.len() as int);
                let k = left_newlines(rest, st.0, st.1);
                head + strip_anchors_from(s.subrange(i as int + e + 4 + k, s.len() as int), st.0, st.1)
            } else {
                s
            },
        },
    }
}

/// `s` without its GitHub anchors, from the start of a text.
pub open spec fn strip_anchors(s: Seq<char>) -> Seq<char> {
    strip_anchors_from(s, true, false)
}

/// One removal, unfolded.
proof fn lemma_strip_step(s: Seq<char>, at_start: bool, prev_blank: bool, i: nat, e: nat)
    requires
        find_str(s, anchor_open()) == Some(i),
        find_str(s.subrange(i as int, s.len() as int), anchor_close()) == Some(e),
        i + e + 4 <= s.len(),
    ensures
        ({
            let st = line_state_after(s.subrange(0, i as int), at_start, prev_blank);
            let k = left_newlines(s.subrange((i + e + 4) as int, s.len() as int), st.0, st.1);
            strip_anchors_from(s, at_start, prev_blank) == s.subrange(0, i as int) + strip_anchors_from(
                s.subrange(i + e + 4 + k, s.len() as int),
                st.0,
                st.1,
            )
        }),
{
}

/// The state after `rest[..start]` is written.
fn state_after(rest: &[char], start: usize, at_start: bool, prev_blank: bool) -> (r: (bool, bool))
    requires
        start <= rest@.len(),
    ensures
        r == line_state_after(rest@.subrange(0, start as int), at_start, prev_blank),
{
    let ghost head = rest@.subrange(0, start as int);
    if start == 0 {
        (at_start, prev_blank)
    } else {
        assert(head.last() == rest@[start - 1]);
        let a = rest[start - 1] == '\n';
        let p = a && if start >= 2 {
            assert(head[head.len() - 2] == rest@[start - 2]);
            rest[start - 2] == '\n'
        } else {
            at_start
        };
        (a, p)
    }
}

/// The line breaks dropped at `rest[after..]`.
fn newlines_left(rest: &[char], after: usize, at_start: bool, prev_blank: bool) -> (k: usize)
    requires
        after <= rest@.len(),
    ensures
        k == left_newlines(rest@.subrange(after as int, rest@.len() as int), at_start, prev_blank),
        after + k <= rest@.len(),
{
    let ghost r = rest@.subrange(after as int, rest@.len() as int);
    let n = rest.len();
    if after < n {
        assert(r[0] == rest@[after as int]);
        if after + 1 < n {
            assert(r[1] == rest@[after + 1]);
        }
    }
    if at_start && after < n && rest[after] == '\n' {
        if prev_blank && after + 1 < n && rest[after + 1] == '\n' {
            2
        } else {
            1
        }
    } else {
        0
    }
}

/// Where the anchor found in `s` at `i`, closed at `e` after it, ends.
proof fn lemma_find_str_at_bound(s: Seq<char>, i: usize, tail: Seq<char>, e: usize)
    requires
        i <= s.len(),
        tail == s.subrange(i as int, s.len() as int),
        find_str(tail, anchor_close()) == Some(e as nat),
    ensures
        i + e + 4 <= s.len(),
{
    lemma_find_str(tail, anchor_close());
}

/// Removes the GitHub HTML anchors (`<a id="..."></a>`) that are of no use
/// on the web. A line that held only anchors goes with them, and where that
/// brings two empty lines together one of them goes too.
#[verifier::rlimit(60)]
pub fn strip_github_anchors(content: &str) -> (r: String)
    ensures
        r@ == strip_anchors(content@),
{
    let open = vec!['<', 'a', ' ', 'i', 'd', '='];
    let close = vec!['<', '/', 'a', '>'];
    assert(open@ == anchor_open());
    assert(close@ == anchor_close());
    let mut result: Vec<char> = Vec::new();
    let mut rest = chars_of(content);
    let mut at_start = true;
    let mut prev_blank = false;
    loop
        invariant
            open@ == anchor_open(),
            close@ == anchor_close(),
            result@ + strip_anchors_from(rest@, at_start, prev_blank) == strip_anchors(content@),
        decreases rest@.len(),
    {
        match find(rest.as_slice(), open.as_slice()) {
            None => {
                append_chars(&mut result, rest.as_slice());
                return string_of(result.as_slice());
            },
            Some(start) => {
                proof {
                    lemma_find_str(rest@, anchor_open());
                }
                let n = rest.len();
                let tail = copy_range(rest.as_slice(), start, n);
                match find(tail.as_slice(), close.as_slice()) {
                    None => {
                        append_chars(&mut result, rest.as_slice());
                        return string_of(result.as_slice());
                    },
                    Some(end) => {
                        proof {
                            lemma_find_str(tail@, anchor_close());
                        }
                        let ghost old_rest = rest@;
                        let ghost old_result = result@;
                        let ghost old_state = (at_start, prev_blank);
                        proof {
                            lemma_find_str_at_bound(rest@, start, tail@, end);
                        }
                        let head = copy_range(rest.as_slice(), 0, start);
                        let (a2, p2) = state_after(rest.as_slice(), start, at_start, prev_blank);
                        let after = start + end + 4;
                        let k = newlines_left(rest.as_slice(), after, a2, p2);
                        proof {
                            lemma_strip_step(old_rest, old_state.0, old_state.1, start as nat, end as nat);
                        }
                        append_chars(&mut result, head.as_slice());
                        let next = copy_range(rest.as_slice(), after + k, n);
                        rest = next;
                        at_start = a2;
                        prev_blank = p2;
                        proof {
                            assert(result@ + strip_anchors_from(rest@, at_start, prev_blank) =~= old_result
                                + strip_anchors_from(old_rest, old_state.0, old_state.1));
                        }
                    },
                }
            },
        }
    }
}


/// `# `, the start of a top-level heading.
pub open spec fn h1_mark() -> Seq<char> {
    seq!['#', ' ']
}

/// `## `, the start of a section heading.
pub open spec fn h2_mark() -> Seq<char> {
    seq!['#', '#', ' ']
}

/// ```` ``` ````, the fence of a code block.
pub open spec fn fence() -> Seq<char> {
    seq!['`', '`', '`']
}

/// The sort order that a file name such as `01-installation.md` carries:
/// the text before the first `-` read as an `i32`, or 99.
pub open spec fn order_of(name: Seq<char>) -> i32 {
    match parse_i32(name.subrange(0, find_char(name, '-') as int)) {
        Some(v) => v,
        None => 99,
    }
}

/// Reads the sort order from a file name of the form `01-installation.md`.
pub fn extract_order(name: &str) -> (r: i32)
    ensures
        r == order_of(name@),
{
    let cs = chars_of(name);
    let dash = find_char_from(cs.as_slice(), '-', 0);
    assert(cs@.subrange(0, cs@.len() as int) =~= cs@);
    let head = copy_range(cs.as_slice(), 0, dash);
    match parse_i32_chars(head.as_slice()) {
        Some(v) => v,
        None => 99,
    }
}

/// The first line that starts with `# `, without its `# ` marks and trimmed.
pub open spec fn title_in(ls: Seq<Seq<char>>) -> Option<Seq<char>>
    decreases ls.len(),
{
    if ls.len() == 0 {
        None
    } else if starts_with(ls[0], h1_mark()) {
        Some(trim(strip_prefixes(ls[0], h1_mark())))
    } else {
        title_in(ls.drop_first())
    }
}

/// The title of a page: its first `# ` heading, or `Sans titre`.
pub open spec fn title_of(content: Seq<char>) -> Seq<char> {
    match title_in(lines(content)) {
        Some(t) => t,
        None => "Sans titre"@,
    }
}

/// Reads the title from the first `# ` heading of the file.
pub fn extract_title(content: &str) -> (r: String)
    ensures
        r@ == title_of(content@),
{
    let cs = chars_of(content);
    let ls = lines_of(cs.as_slice());
    assert(views(ls@) == lines(content@));
    let mark = vec!['#', ' '];
    let mut k: usize = 0;
    assert(views(ls@).subrange(0, ls@.len() as int) =~= views(ls@));
    while k < ls.len()
        invariant
            mark@ == h1_mark(),
            views(ls@) == lines(content@),
            k <= ls@.len(),
            title_in(views(ls@)) == title_in(views(ls@).subrange(k as int, ls@.len() as int)),
        decreases ls@.len() - k,
    {
        let ghost rest = views(ls@).subrange(k as int, ls@.len() as int);
        assert(rest[0] == ls@[k as int]@);
        if has_prefix(ls[k].as_slice(), mark.as_slice()) {
            let stripped = stripped_prefixes(ls[k].as_slice(), mark.as_slice());
            assert(title_in(rest) == Some(trim(strip_prefixes(ls@[k as int]@, h1_mark()))));
            return string_of(trimmed(stripped.as_slice()).as_slice());
        }
        assert(rest.drop_first() =~= views(ls@).subrange(k + 1, ls@.len() as int));
        k = k + 1;
    }
    assert(views(ls@).subrange(k as int, ls@.len() as int) =~= Seq::<Seq<char>>::empty());
    "Sans titre".to_owned()
}

/// A line that cannot be a lead: empty, or starting with `#`, `-`, `|`, `[`,
/// `<` or `>` (headings, rules, lists, tables, links, HTML, quotes).
pub open spec fn is_structural(t: Seq<char>) -> bool {
    t.len() == 0 || t[0] == '#' || t[0] == '-' || t[0] == '|' || t[0] == '[' || t[0] == '<'
        || t[0] == '>'
}

/// The lead of the remaining lines: the first prose line after the title and
/// before any `## ` section, outside code blocks, trimmed.
pub open spec fn lead_in(ls: Seq<Seq<char>>, after_title: bool, in_code: bool) -> Option<
    Seq<char>,
>
    decreases ls.len(),
{
    if ls.len() == 0 {
        None
    } else {
        let t = trim(ls[0]);
        let rest = ls.drop_first();
        if !in_code && starts_with(t, h1_mark()) && !after_title {
            lead_in(rest, true, in_code)
        } else if !after_title {
            lead_in(rest, after_title, in_code)
        } else if !in_code && starts_with(t, h2_mark()) {
            None
        } else if starts_with(t, fence()) {
            lead_in(rest, after_title, !in_code)
        } else if in_code || is_structural(t) {
            lead_in(rest, after_title, in_code)
        } else {
            Some(t)
        }
    }
}

/// Reads the lead of a page: the first sentence of its introduction, or
/// `None` when the page goes straight to its sections.
pub fn extract_lead(content: &str) -> (r: Option<String>)
    ensures
        match r {
            Some(l) => lead_in(lines(content@), false, false) == Some(l@),
            None => lead_in(lines(content@), false, false) is None,
        },
{
    let cs = chars_of(content);
    let ls = lines_of(cs.as_slice());
    assert(views(ls@) == lines(content@));
    let h1 = vec!['#', ' '];
    let h2 = vec!['#', '#', ' '];
    let fe = vec!['`', '`', '`'];
    let mut after_title = false;
    let mut in_code = false;
    let mut k: usize = 0;
    assert(views(ls@).subrange(0, ls@.len() as int) =~= views(ls@));
    while k < ls.len()
        invariant
            h1@ == h1_mark(),
            h2@ == h2_mark(),
            fe@ == fence(),
            views(ls@) == lines(content@),
            k <= ls@.len(),
            lead_in(views(ls@), false, false) == lead_in(
                views(ls@).subrange(k as int, ls@.len() as int),
                after_title,
                in_code,
            ),
        decreases ls@.len() - k,
    {
        let ghost rest = views(ls@).subrange(k as int, ls@.len() as int);
        assert(rest[0] == ls@[k as int]@);
        assert(rest.drop_first() =~= views(ls@).subrange(k + 1, ls@.len() as int));
        let t = trimmed(ls[k].as_slice());
        if !in_code && has_prefix(t.as_slice(), h1.as_slice()) && !after_title {
            after_title = true;
        } else if !after_title {
        } else if !in_code && has_prefix(t.as_slice(), h2.as_slice()) {
            return None;
        } else if has_prefix(t.as_slice(), fe.as_slice()) {
            in_code = !in_code;
        } else if in_code || t.len() == 0 || t[0] == '#' || t[0] == '-' || t[0] == '|' || t[0]
            == '[' || t[0] == '<' || t[0] == '>' {
        } else {
            return Some(string_of(t.as_slice()));
        }
        k = k + 1;
    }
    assert(views(ls@).subrange(k as int, ls@.len() as int) =~= Seq::<Seq<char>>::empty());
    None
}


/// `\\n## `, what separates the sections of a page.
pub open spec fn section_sep() -> Seq<char> {
    seq!['\n', '#', '#', ' ']
}

/// The body of a page: what follows a first line that is a `# ` title (all
/// of the page otherwise), leading whitespace removed, with a `\\n` put in
/// front when it opens directly on a `## ` heading.
pub open spec fn page_body(content: Seq<char>) -> Seq<char> {
    let i = find_char(content, '\n');
    let b = if i < content.len() && starts_with(trim(content.subrange(0, i as int)), h1_mark()) {
        trim_start(content.subrange(i as int, content.len() as int))
    } else {
        trim_start(content)
    };
    if starts_with(b, h2_mark()) {
        seq!['\n'] + b
    } else {
        b
    }
}

/// A block of a page: its heading, its content and its type.
pub type BlockView = (Option<Seq<char>>, Seq<char>, Seq<char>);

/// The view of a block.
pub open spec fn block_view(b: (Option<String>, String, String)) -> BlockView {
    (
        match b.0 {
            Some(h) => Some(h@),
            None => None,
        },
        b.1@,
        b.2@,
    )
}

/// The views of a list of blocks.
pub open spec fn blocks_view(v: Seq<(Option<String>, String, String)>) -> Seq<BlockView> {
    v.map_values(|b: (Option<String>, String, String)| block_view(b))
}

/// An introduction that is a table of contents, judged on its lowercase form.
pub open spec fn is_nav_intro(lower: Seq<char>) -> bool {
    starts_with(lower, "## sommaire"@) || starts_with(lower, "## table des matières"@)
        || starts_with(lower, "## table of contents"@) || starts_with(lower, "## contents"@)
}

/// What the introduction of a page (the text before its first section,
/// trimmed) contributes: a table of contents becomes a `sommaire` block of
/// the lines after its heading; text with code or a table becomes a `code`
/// or `text` block; plain text is the lead and gives no block.
pub open spec fn intro_blocks(intro: Seq<char>, lower: Seq<char>) -> Seq<BlockView> {
    if intro.len() == 0 {
        Seq::empty()
    } else if is_nav_intro(lower) {
        let i = find_char(intro, '\n');
        let list = if i < intro.len() {
            trim(intro.subrange(i as int + 1, intro.len() as int))
        } else {
            Seq::empty()
        };
        if list.len() > 0 {
            seq![(None, list, "sommaire"@)]
        } else {
            Seq::empty()
        }
    } else {
        let has_code = contains_str(intro, fence());
        if has_code || has_char(intro, '|') {
            seq![(None, intro, if has_code { "code"@ } else { "text"@ })]
        } else {
            Seq::empty()
        }
    }
}

/// How a section heading is treated.
#[derive(Clone, Copy, Debug, PartialEq, Eq, Structural)]
pub enum HeadingKind {
    /// A table of contents: kept as a `Sommaire` block without heading.
    Navigation,
    /// A recurring navigation section (see also, next steps) or the IA section: dropped.
    Skipped,
    /// Any other section: kept under its heading.
    Content,
}

/// The kind of a section heading, judged on its lowercase form.
pub open spec fn heading_kind(lower: Seq<char>) -> HeadingKind {
    if lower == "sommaire"@ || lower == "table des matières"@ || lower == "table of contents"@
        || lower == "contents"@ {
        HeadingKind::Navigation
    } else if lower == "voir aussi"@ || lower == "see also"@ || lower == "retour au sommaire"@
        || lower == "back to summary"@ || lower == "prochaines étapes"@ || lower
        == "next steps"@ || lower == "ia"@ {
        HeadingKind::Skipped
    } else {
        HeadingKind::Content
    }
}

/// The heading of a section: its first line, trimmed.
pub open spec fn part_heading(part: Seq<char>) -> Seq<char> {
    trim(part.subrange(0, find_char(part, '\n') as int))
}

/// The content of a section: what follows its first line, trimmed.
pub open spec fn part_body(part: Seq<char>) -> Seq<char> {
    trim(part.subrange(find_char(part, '\n') as int, part.len() as int))
}

/// The block that one section gives, if any.
pub open spec fn part_blocks(part: Seq<char>) -> Seq<BlockView> {
    let h = part_heading(part);
    let b = part_body(part);
    if b.len() == 0 {
        Seq::empty()
    } else {
        match heading_kind(lowercase(h)) {
            HeadingKind::Navigation => seq![(None, b, "Sommaire"@)],
            HeadingKind::Skipped => Seq::empty(),
            HeadingKind::Content => seq![
                (Some(h), b, if contains_str(b, fence()) { "Code"@ } else { "Text"@ }),
            ],
        }
    }
}

/// The blocks of a run of sections, in order.
pub open spec fn parts_blocks(parts: Seq<Seq<char>>) -> Seq<BlockView>
    decreases parts.len(),
{
    if parts.len() == 0 {
        Seq::empty()
    } else {
        part_blocks(parts[0]) + parts_blocks(parts.drop_first())
    }
}

/// The blocks of a page: those of its introduction, then those of its
/// `## ` sections.
pub open spec fn page_blocks(content: Seq<char>) -> Seq<BlockView> {
    let parts = split_str(page_body(content), section_sep());
    intro_blocks(trim(parts[0]), lowercase(trim(parts[0]))) + parts_blocks(parts.drop_first())
}

/// Whether `lowered` is one of the given literals.
fn is_one_of(lowered: &[char], words: &Vec<&str>) -> (r: bool)
    ensures
        r == exists|k: int| 0 <= k < words@.len() && lowered@ == words@[k]@,
{
    let mut k: usize = 0;
    while k < words.len()
        invariant
            k <= words@.len(),
            forall|m: int| 0 <= m < k ==> lowered@ != #[trigger] words@[m]@,
        decreases words@.len() - k,
    {
        let w = chars_of(words[k]);
        if chars_eq(lowered, w.as_slice()) {
            return true;
        }
        k = k + 1;
    }
    false
}

/// Classifies a section heading from its lowercase form.
pub fn heading_kind_of(lowered: &str) -> (r: HeadingKind)
    ensures
        r == heading_kind(lowered@),
{
    let l = chars_of(lowered);
    let nav = vec!["sommaire", "table des matières", "table of contents", "contents"];
    if is_one_of(l.as_slice(), &nav) {
        assert(l@ == "sommaire"@ || l@ == "table des matières"@ || l@ == "table of contents"@
            || l@ == "contents"@) by {
            let k = choose|k: int| 0 <= k < nav@.len() && l@ == nav@[k]@;
        }
        return HeadingKind::Navigation;
    }
    assert(!(l@ == "sommaire"@ || l@ == "table des matières"@ || l@ == "table of contents"@
        || l@ == "contents"@)) by {
        if l@ == "sommaire"@ { assert(l@ == nav@[0]@); }
        if l@ == "table des matières"@ { assert(l@ == nav@[1]@); }
        if l@ == "table of contents"@ { assert(l@ == nav@[2]@); }
        if l@ == "contents"@ { assert(l@ == nav@[3]@); }
    }
    let skip = vec![
        "voir aussi",
        "see also",
        "retour au sommaire",
        "back to summary",
        "prochaines étapes",
        "next steps",
        "ia",
    ];
    if is_one_of(l.as_slice(), &skip) {
        assert(l@ == "voir aussi"@ || l@ == "see also"@ || l@ == "retour au sommaire"@ || l@
            == "back to summary"@ || l@ == "prochaines étapes"@ || l@ == "next steps"@ || l@ == "ia"@) by {
            let k = choose|k: int| 0 <= k < skip@.len() && l@ == skip@[k]@;
        }
        return HeadingKind::Skipped;
    }
    assert(!(l@ == "voir aussi"@ || l@ == "see also"@ || l@ == "retour au sommaire"@ || l@
        == "back to summary"@ || l@ == "prochaines étapes"@ || l@ == "next steps"@ || l@ == "ia"@)) by {
        if l@ == "voir aussi"@ { assert(l@ == skip@[0]@); }
        if l@ == "see also"@ { assert(l@ == skip@[1]@); }
        if l@ == "retour au sommaire"@ { assert(l@ == skip@[2]@); }
        if l@ == "back to summary"@ { assert(l@ == skip@[3]@); }
        if l@ == "prochaines étapes"@ { assert(l@ == skip@[4]@); }
        if l@ == "next steps"@ { assert(l@ == skip@[5]@); }
        if l@ == "ia"@ { assert(l@ == skip@[6]@); }
    }
    HeadingKind::Content
}


/// Whether an introduction, in lowercase, is a table of contents.
pub fn intro_is_navigation(lowered: &str) -> (r: bool)
    ensures
        r == is_nav_intro(lowered@),
{
    let l = chars_of(lowered);
    let a = chars_of("## sommaire");
    let b = chars_of("## table des matières");
    let c = chars_of("## table of contents");
    let d = chars_of("## contents");
    has_prefix(l.as_slice(), a.as_slice()) || has_prefix(l.as_slice(), b.as_slice())
        || has_prefix(l.as_slice(), c.as_slice()) || has_prefix(l.as_slice(), d.as_slice())
}

/// The body of a page.
fn page_body_chars(content: &[char]) -> (r: Vec<char>)
    ensures
        r@ == page_body(content@),
{
    let n = content.len();
    let i = find_char_from(content, '\n', 0);
    assert(content@.subrange(0, n as int) =~= content@);
    let h1 = vec!['#', ' '];
    let h2 = vec!['#', '#', ' '];
    let b = if i < n && has_prefix(trimmed(copy_range(content, 0, i).as_slice()).as_slice(), h1.as_slice()) {
        trimmed_start(copy_range(content, i, n).as_slice())
    } else {
        trimmed_start(content)
    };
    if has_prefix(b.as_slice(), h2.as_slice()) {
        let mut r = vec!['\n'];
        append_chars(&mut r, b.as_slice());
        r
    } else {
        b
    }
}

/// The blocks that the trimmed introduction `intro` gives.
fn intro_blocks_of(intro: &[char]) -> (r: Vec<(Option<String>, String, String)>)
    ensures
        blocks_view(r@) == intro_blocks(intro@, lowercase(intro@)),
{
    let mut out: Vec<(Option<String>, String, String)> = Vec::new();
    if intro.len() == 0 {
        assert(blocks_view(out@) =~= Seq::<BlockView>::empty());
        return out;
    }
    let lower = lowercase_chars(intro);
    let lower_s = string_of(lower.as_slice());
    if intro_is_navigation(lower_s.as_str()) {
        let n = intro.len();
        let i = find_char_from(intro, '\n', 0);
        assert(intro@.subrange(0, n as int) =~= intro@);
        let list = if i < n {
            trimmed(copy_range(intro, i + 1, n).as_slice())
        } else {
            Vec::new()
        };
        if list.len() > 0 {
            out.push((None, string_of(list.as_slice()), "sommaire".to_owned()));
        }
    } else {
        let fe = vec!['`', '`', '`'];
        let has_code = contains(intro, fe.as_slice());
        if has_code || contains_char(intro, '|') {
            let kind = if has_code {
                "code".to_owned()
            } else {
                "text".to_owned()
            };
            out.push((None, string_of(intro), kind));
        }
    }
    assert(blocks_view(out@) =~= intro_blocks(intro@, lowercase(intro@)));
    out
}

/// The block that one section gives, if any.
fn part_blocks_of(part: &[char]) -> (r: Vec<(Option<String>, String, String)>)
    ensures
        blocks_view(r@) == part_blocks(part@),
{
    let n = part.len();
    let nl = find_char_from(part, '\n', 0);
    assert(part@.subrange(0, n as int) =~= part@);
    let heading = trimmed(copy_range(part, 0, nl).as_slice());
    let body = trimmed(copy_range(part, nl, n).as_slice());
    let mut out: Vec<(Option<String>, String, String)> = Vec::new();
    if body.len() > 0 {
        let lower = string_of(lowercase_chars(heading.as_slice()).as_slice());
        match heading_kind_of(lower.as_str()) {
            HeadingKind::Navigation => {
                out.push((None, string_of(body.as_slice()), "Sommaire".to_owned()));
            },
            HeadingKind::Skipped => {},
            HeadingKind::Content => {
                let fe = vec!['`', '`', '`'];
                let kind = if contains(body.as_slice(), fe.as_slice()) {
                    "Code".to_owned()
                } else {
                    "Text".to_owned()
                };
                out.push((Some(string_of(heading.as_slice())), string_of(body.as_slice()), kind));
            },
        }
    }
    assert(blocks_view(out@) =~= part_blocks(part@));
    out
}

/// Cuts a page into blocks on its `## ` headings: each block is a heading
/// (`None` for the introduction and tables of contents), a content and a
/// block type.
pub fn parse_blocks(content: &str) -> (r: Vec<(Option<String>, String, String)>)
    ensures
        blocks_view(r@) == page_blocks(content@),
{
    let cs = chars_of(content);
    let body = page_body_chars(cs.as_slice());
    let sep = vec!['\n', '#', '#', ' '];
    let parts = split_on(body.as_slice(), sep.as_slice());
    let intro = trimmed(parts[0].as_slice());
    let mut blocks = intro_blocks_of(intro.as_slice());
    let ghost first = blocks_view(blocks@);
    let ghost ps = views(parts@);
    assert(ps[0] == parts@[0]@);
    let mut k: usize = 1;
    assert(ps.subrange(1, ps.len() as int) =~= ps.drop_first());
    while k < parts.len()
        invariant
            1 <= k <= parts@.len(),
            ps == views(parts@),
            blocks_view(blocks@) + parts_blocks(ps.subrange(k as int, ps.len() as int)) == first
                + parts_blocks(ps.drop_first()),
        decreases parts@.len() - k,
    {
        let mut more = part_blocks_of(parts[k].as_slice());
        let ghost before = blocks@;
        let ghost added = more@;
        blocks.append(&mut more);
        assert(blocks_view(blocks@) =~= blocks_view(before) + blocks_view(added));
        proof {
            let rest = ps.subrange(k as int, ps.len() as int);
            assert(rest[0] == parts@[k as int]@);
            assert(rest.drop_first() =~= ps.subrange(k + 1, ps.len() as int));
        }
        k = k + 1;
    }
    assert(ps.subrange(k as int, ps.len() as int) =~= Seq::<Seq<char>>::empty());
    assert(blocks_view(blocks@) + Seq::<BlockView>::empty() =~= blocks_view(blocks@));
    blocks
}


/// The theme under which a documentation section is listed.
#[derive(Clone, Copy, Debug, PartialEq, Eq, Structural)]
pub enum SectionTheme {
    Demarrage,
    Web,
    Database,
    Security,
    Admin,
    Autres,
}

/// The theme of a section, from its slug.
pub open spec fn theme_of(slug: Seq<char>) -> SectionTheme {
    if slug == "installation"@ || slug == "architecture"@ || slug == "configuration"@ || slug
        == "env"@ {
        SectionTheme::Demarrage
    } else if slug == "routing"@ || slug == "formulaire"@ || slug == "flash"@ || slug
        == "template"@ {
        SectionTheme::Web
    } else if slug == "orm"@ || slug == "model"@ {
        SectionTheme::Database
    } else if slug == "middleware"@ || slug == "auth"@ || slug == "session"@ {
        SectionTheme::Security
    } else if slug == "admin"@ {
        SectionTheme::Admin
    } else {
        SectionTheme::Autres
    }
}

/// Whether the characters `l` equal one of the literals.
fn equals_any(l: &[char], words: &Vec<&str>) -> (r: bool)
    ensures
        r == exists|k: int| 0 <= k < words@.len() && l@ == words@[k]@,
{
    is_one_of(l, words)
}

/// The theme of a section, from its slug.
pub fn section_theme(slug: &str) -> (r: SectionTheme)
    ensures
        r == theme_of(slug@),
{
    let l = chars_of(slug);
    let d = vec!["installation", "architecture", "configuration", "env"];
    if equals_any(l.as_slice(), &d) {
        assert(l@ == d@[0]@ || l@ == d@[1]@ || l@ == d@[2]@ || l@ == d@[3]@) by {
            let k = choose|k: int| 0 <= k < d@.len() && l@ == d@[k]@;
        }
        return SectionTheme::Demarrage;
    }
    assert(!(l@ == d@[0]@ || l@ == d@[1]@ || l@ == d@[2]@ || l@ == d@[3]@));
    let w = vec!["routing", "formulaire", "flash", "template"];
    if equals_any(l.as_slice(), &w) {
        assert(l@ == w@[0]@ || l@ == w@[1]@ || l@ == w@[2]@ || l@ == w@[3]@) by {
            let k = choose|k: int| 0 <= k < w@.len() && l@ == w@[k]@;
        }
        return SectionTheme::Web;
    }
    assert(!(l@ == w@[0]@ || l@ == w@[1]@ || l@ == w@[2]@ || l@ == w@[3]@));
    let db = vec!["orm", "model"];
    if equals_any(l.as_slice(), &db) {
        assert(l@ == db@[0]@ || l@ == db@[1]@) by {
            let k = choose|k: int| 0 <= k < db@.len() && l@ == db@[k]@;
        }
        return SectionTheme::Database;
    }
    assert(!(l@ == db@[0]@ || l@ == db@[1]@));
    let sec = vec!["middleware", "auth", "session"];
    if equals_any(l.as_slice(), &sec) {
        assert(l@ == sec@[0]@ || l@ == sec@[1]@ || l@ == sec@[2]@) by {
            let k = choose|k: int| 0 <= k < sec@.len() && l@ == sec@[k]@;
        }
        return SectionTheme::Security;
    }
    assert(!(l@ == sec@[0]@ || l@ == sec@[1]@ || l@ == sec@[2]@));
    let adm = chars_of("admin");
    if chars_eq(l.as_slice(), adm.as_slice()) {
        return SectionTheme::Admin;
    }
    SectionTheme::Autres
}

/// `s` with its first character made uppercase when it is an ASCII
/// lowercase letter, the way `make_ascii_uppercase` on the first byte does.
pub open spec fn capitalized(s: Seq<char>) -> Seq<char> {
    if s.len() > 0 && 'a' <= s[0] && s[0] <= 'z' {
        s.update(0, ((s[0] as u32) - 32) as char)
    } else {
        s
    }
}

/// The title of a section: the title of its index page when it could be
/// read, else its slug with a capital first letter.
pub open spec fn section_title_of(index_content: Option<Seq<char>>, slug: Seq<char>) -> Seq<char> {
    match index_content {
        Some(c) => title_of(c),
        None => capitalized(slug),
    }
}

/// Computes the title of a section from the content of its index page, if
/// it could be read, and its slug.
pub fn section_title(index_content: Option<&str>, slug: &str) -> (r: String)
    ensures
        r@ == section_title_of(
            match index_content {
                Some(c) => Some(c@),
                None => None,
            },
            slug@,
        ),
{
    match index_content {
        Some(c) => extract_title(c),
        None => {
            let mut s = chars_of(slug);
            if s.len() > 0 && 'a' <= s[0] && s[0] <= 'z' {
                let up = char_upper(s[0]);
                s.set(0, up);
            }
            string_of(s.as_slice())
        },
    }
}

/// The uppercase of an ASCII lowercase letter.
fn char_upper(c: char) -> (r: char)
    requires
        'a' <= c && c <= 'z',
    ensures
        r == ((c as u32) - 32) as char,
{
    let u = (c as u32) - 32;
    let b = u as u8;
    b as char
}

/// A file that can be the index page of a section: a name that ends with
/// `.md` and starts with an ASCII digit.
pub open spec fn is_index_name(name: Seq<char>) -> bool {
    ends_with(name, ".md"@) && name.len() > 0 && '0' <= name[0] && name[0] <= '9'
}

/// Whether a file name can be the index page of a section (`NN-name.md`).
pub fn is_index_file_name(name: &str) -> (r: bool)
    ensures
        r == is_index_name(name@),
{
    let n = chars_of(name);
    let md = chars_of(".md");
    has_suffix(n.as_slice(), md.as_slice()) && n.len() > 0 && '0' <= n[0] && n[0] <= '9'
}

/// The sort order of a section: that of its index file name, or 99 when it has none.
pub fn section_sort_order(index_name: Option<&str>) -> (r: i32)
    ensures
        r == match index_name {
            Some(n) => order_of(n@),
            None => 99,
        },
{
    match index_name {
        Some(n) => extract_order(n),
        None => 99,
    }
}

/// An entry of a language folder: its name, when it is valid UTF-8, and
/// whether it is a directory.
pub struct LangEntry {
    pub name: Option<String>,
    pub is_dir: bool,
}

/// A name that is a documentation section: not empty, and neither `cour`
/// nor `ia`, which have their own pipelines.
pub open spec fn is_section_name(name: Seq<char>) -> bool {
    name.len() > 0 && name != "cour"@ && name != "ia"@
}

/// The name of an entry, or nothing.
pub open spec fn entry_name(e: LangEntry) -> Seq<char> {
    match e.name {
        Some(n) => n@,
        None => Seq::empty(),
    }
}

/// The sections among the first `n` entries taken in the order `ord`.
pub open spec fn sections_upto(entries: Seq<Named<LangEntry>>, ord: Seq<int>, n: int) -> Seq<Seq<char>>
    decreases n,
{
    if n <= 0 {
        Seq::empty()
    } else {
        let e = entries[ord[n - 1]].entry;
        let rest = sections_upto(entries, ord, n - 1);
        if e.is_dir && is_section_name(entry_name(e)) {
            rest.push(entry_name(e))
        } else {
            rest
        }
    }
}

/// The sections of a language folder: its directories whose name is a
/// section name, in the order of their names.
pub open spec fn lang_sections(entries: Seq<Named<LangEntry>>) -> Seq<Seq<char>> {
    sections_upto(entries, name_order(keys_of(entries)), entries.len() as int)
}

/// The sections of a language folder, from its entries as listed: the
/// directories whose name is a section name, sorted by name.
pub fn collect_sections(entries: &Vec<Named<LangEntry>>) -> (r: Vec<String>)
    ensures
        r@.map_values(|s: String| s@) == lang_sections(entries@),
{
    let ord = order_by_name(entries);
    let ghost o = name_order(keys_of(entries@));
    let mut out: Vec<String> = Vec::new();
    let mut k: usize = 0;
    let cour = chars_of("cour");
    let ia = chars_of("ia");
    while k < ord.len()
        invariant
            k <= ord@.len(),
            ord@.len() == entries@.len(),
            o == name_order(keys_of(entries@)),
            forall|m: int| 0 <= m < ord@.len() ==> #[trigger] ord@[m] < entries@.len(),
            forall|m: int| 0 <= m < ord@.len() ==> ord@[m] as int == #[trigger] o[m],
            cour@ == "cour"@,
            ia@ == "ia"@,
            out@.map_values(|s: String| s@) == sections_upto(entries@, o, k as int),
        decreases ord@.len() - k,
    {
        let idx = ord[k];
        assert(idx as int == o[k as int]);
        let e = &entries[idx].entry;
        let ghost before = out@.map_values(|s: String| s@);
        if e.is_dir {
            let name: Vec<char> = match &e.name {
                Some(n) => chars_of(n.as_str()),
                None => Vec::new(),
            };
            assert(name@ == entry_name(entries@[idx as int].entry));
            if name.len() > 0 && !chars_eq(name.as_slice(), cour.as_slice()) && !chars_eq(
                name.as_slice(),
                ia.as_slice(),
            ) {
                out.push(string_of(name.as_slice()));
                assert(out@.map_values(|s: String| s@) =~= before.push(name@));
            }
        }
        k = k + 1;
    }
    out
}


/// An entry of a page directory inside a section directory.
pub enum SubEntry {
    /// A `.md` file.
    Markdown,
    /// A directory: its name, when valid UTF-8, and its `.md` files as
    /// listed, each with the stem of its name (`None` when that stem is not
    /// valid UTF-8).
    Directory { name: Option<String>, md_files: Vec<Named<Option<String>>> },
    /// Anything else.
    Other,
}

/// An entry of a section directory.
pub enum SectionEntry {
    /// A `.md` file: the index page of the section.
    Markdown,
    /// A directory: its name, when valid UTF-8, and its entries as listed.
    Directory { name: Option<String>, entries: Vec<Named<SubEntry>> },
    /// Anything else.
    Other,
}

/// Where the file of a page lies, by positions in the listings as given:
/// the section entry, then the sub-entry, then the `.md` file of a leaf
/// directory.
#[derive(Clone, Copy, Debug, PartialEq, Eq, Structural)]
pub enum PagePlace {
    Index(usize),
    Sub(usize, usize),
    Leaf(usize, usize, usize),
}

/// A page of a section: its slug, its sort order and where its file lies.
pub struct SectionPage {
    pub slug: String,
    pub order: i32,
    pub place: PagePlace,
}

/// A name, or nothing.
pub open spec fn opt_name(n: Option<String>) -> Seq<char> {
    match n {
        Some(s) => s@,
        None => Seq::empty(),
    }
}

/// `a-b`.
pub open spec fn dash_join(a: Seq<char>, b: Seq<char>) -> Seq<char> {
    a + seq!['-'] + b
}

/// The slug of a `.md` file in a leaf directory: named after the leaf when
/// it is the only one or bears the leaf's name, else suffixed by its stem.
pub open spec fn leaf_slug(
    section: Seq<char>,
    sub: Seq<char>,
    leaf: Seq<char>,
    stem: Seq<char>,
    single: bool,
) -> Seq<char> {
    if single || stem == leaf {
        dash_join(dash_join(section, sub), leaf)
    } else {
        dash_join(dash_join(dash_join(section, sub), leaf), stem)
    }
}

/// The pages of the first `n` `.md` files of a leaf directory, taken in
/// the order `ord`.
pub open spec fn leaf_pages_upto(
    section: Seq<char>,
    sub: Seq<char>,
    leaf: Seq<char>,
    files: Seq<Named<Option<String>>>,
    ord: Seq<int>,
    i: int,
    j: int,
    n: int,
) -> Seq<(Seq<char>, PagePlace)>
    decreases n,
{
    if n <= 0 {
        Seq::empty()
    } else {
        leaf_pages_upto(section, sub, leaf, files, ord, i, j, n - 1).push(
            (
                leaf_slug(section, sub, leaf, opt_name(files[ord[n - 1]].entry), files.len() == 1),
                PagePlace::Leaf(i as usize, j as usize, ord[n - 1] as usize),
            ),
        )
    }
}

/// The pages that one entry of a page directory gives; a leaf directory's
/// files are taken in the order of their names.
pub open spec fn sub_entry_pages(section: Seq<char>, sub: Seq<char>, e: SubEntry, i: int, j: int) -> Seq<
    (Seq<char>, PagePlace),
> {
    match e {
        SubEntry::Markdown => seq![(dash_join(section, sub), PagePlace::Sub(i as usize, j as usize))],
        SubEntry::Directory { name, md_files } => if opt_name(name).len() > 0 {
            leaf_pages_upto(
                section,
                sub,
                opt_name(name),
                md_files@,
                name_order(keys_of(md_files@)),
                i,
                j,
                md_files@.len() as int,
            )
        } else {
            Seq::empty()
        },
        SubEntry::Other => Seq::empty(),
    }
}

/// The pages of the first `n` entries of a page directory, taken in the
/// order `ord`.
pub open spec fn sub_pages_upto(
    section: Seq<char>,
    sub: Seq<char>,
    subs: Seq<Named<SubEntry>>,
    ord: Seq<int>,
    i: int,
    n: int,
) -> Seq<(Seq<char>, PagePlace)>
    decreases n,
{
    if n <= 0 {
        Seq::empty()
    } else {
        sub_pages_upto(section, sub, subs, ord, i, n - 1) + sub_entry_pages(
            section,
            sub,
            subs[ord[n - 1]].entry,
            i,
            ord[n - 1],
        )
    }
}

/// The pages that one entry of a section directory gives; a page
/// directory's entries are taken in the order of their names.
pub open spec fn entry_pages(section: Seq<char>, e: SectionEntry, i: int) -> Seq<(Seq<char>, PagePlace)> {
    match e {
        SectionEntry::Markdown => seq![(dash_join(section, "index"@), PagePlace::Index(i as usize))],
        SectionEntry::Directory { name, entries } => if opt_name(name).len() > 0 {
            sub_pages_upto(
                section,
                opt_name(name),
                entries@,
                name_order(keys_of(entries@)),
                i,
                entries@.len() as int,
            )
        } else {
            Seq::empty()
        },
        SectionEntry::Other => Seq::empty(),
    }
}

/// The pages of the first `n` entries of a section directory, taken in the
/// order `ord`.
pub open spec fn section_pages_upto(
    section: Seq<char>,
    entries: Seq<Named<SectionEntry>>,
    ord: Seq<int>,
    n: int,
) -> Seq<(Seq<char>, PagePlace)>
    decreases n,
{
    if n <= 0 {
        Seq::empty()
    } else {
        section_pages_upto(section, entries, ord, n - 1) + entry_pages(section, entries[ord[n - 1]].entry, ord[n - 1])
    }
}

/// The pages of a section, depth first, each directory's entries in the
/// order of their names: the `.md` file of the section is the page
/// `{section}-index`; a `.md` file in a page directory `{sub}` is the page
/// `{section}-{sub}`; the `.md` files of a leaf directory inside it are
/// pages named by `leaf_slug`. Directories whose name is empty or not UTF-8
/// give no page.
pub open spec fn section_pages(section: Seq<char>, entries: Seq<Named<SectionEntry>>) -> Seq<(Seq<char>, PagePlace)> {
    section_pages_upto(section, entries, name_order(keys_of(entries)), entries.len() as int)
}

pub proof fn lemma_section_pages_len_mono(
    section: Seq<char>,
    entries: Seq<Named<SectionEntry>>,
    ord: Seq<int>,
    n: int,
    m: int,
)
    requires
        0 <= n <= m,
    ensures
        section_pages_upto(section, entries, ord, n).len() <= section_pages_upto(section, entries, ord, m).len(),
    decreases m - n,
{
    if n < m {
        lemma_section_pages_len_mono(section, entries, ord, n, m - 1);
    }
}

pub proof fn lemma_sub_pages_len_mono(
    section: Seq<char>,
    sub: Seq<char>,
    subs: Seq<Named<SubEntry>>,
    ord: Seq<int>,
    i: int,
    n: int,
    m: int,
)
    requires
        0 <= n <= m,
    ensures
        sub_pages_upto(section, sub, subs, ord, i, n).len() <= sub_pages_upto(section, sub, subs, ord, i, m).len(),
    decreases m - n,
{
    if n < m {
        lemma_sub_pages_len_mono(section, sub, subs, ord, i, n, m - 1);
    }
}

pub proof fn lemma_leaf_len(
    section: Seq<char>,
    sub: Seq<char>,
    leaf: Seq<char>,
    files: Seq<Named<Option<String>>>,
    ord: Seq<int>,
    i: int,
    j: int,
    n: int,
    m: int,
)
    requires
        0 <= n <= m,
    ensures
        leaf_pages_upto(section, sub, leaf, files, ord, i, j, n).len() <= leaf_pages_upto(
            section,
            sub,
            leaf,
            files,
            ord,
            i,
            j,
            m,
        ).len(),
    decreases m - n,
{
    if n < m {
        lemma_leaf_len(section, sub, leaf, files, ord, i, j, n, m - 1);
    }
}

/// `a-b` as characters.
fn dash_joined(a: &[char], b: &[char]) -> (r: Vec<char>)
    ensures
        r@ == dash_join(a@, b@),
{
    let mut r: Vec<char> = Vec::new();
    append_chars(&mut r, a);
    r.push('-');
    append_chars(&mut r, b);
    assert(r@ =~= dash_join(a@, b@));
    r
}

/// The characters of an optional name.
fn opt_chars(n: &Option<String>) -> (r: Vec<char>)
    ensures
        r@ == opt_name(*n),
{
    match n {
        Some(s) => chars_of(s.as_str()),
        None => Vec::new(),
    }
}

/// The view of a list of pages.
pub open spec fn pages_view(v: Seq<SectionPage>) -> Seq<(Seq<char>, PagePlace)> {
    v.map_values(|p: SectionPage| (p.slug@, p.place))
}

/// Appends a page whose order is its position.
fn push_page(out: &mut Vec<SectionPage>, slug: Vec<char>, place: PagePlace)
    requires
        old(out)@.len() < i32::MAX,
        forall|k: int| 0 <= k < old(out)@.len() ==> #[trigger] old(out)@[k].order == k,
    ensures
        pages_view(final(out)@) == pages_view(old(out)@).push((slug@, place)),
        forall|k: int| 0 <= k < final(out)@.len() ==> #[trigger] final(out)@[k].order == k,
{
    let order = out.len() as i32;
    out.push(SectionPage { slug: string_of(slug.as_slice()), order, place });
    assert(pages_view(out@) =~= pages_view(old(out)@).push((slug@, place)));
}

/// Appends the pages of a leaf directory `leaf` of the page directory `sub`.
fn push_leaf_pages(
    out: &mut Vec<SectionPage>,
    sec: &Vec<char>,
    sub: &Vec<char>,
    leaf: &Vec<char>,
    files: &Vec<Named<Option<String>>>,
    i: usize,
    j: usize,
)
    requires
        old(out)@.len() + leaf_pages_upto(sec@, sub@, leaf@, files@, name_order(keys_of(files@)), i as int, j as int, files@.len() as int).len() <= i32::MAX,
        forall|k: int| 0 <= k < old(out)@.len() ==> #[trigger] old(out)@[k].order == k,
    ensures
        pages_view(final(out)@) == pages_view(old(out)@) + leaf_pages_upto(sec@, sub@, leaf@, files@, name_order(keys_of(files@)), i as int, j as int, files@.len() as int),
        forall|k: int| 0 <= k < final(out)@.len() ==> #[trigger] final(out)@[k].order == k,
{
    let ghost o = name_order(keys_of(files@));
    let ghost mid = pages_view(out@);
    let ord = order_by_name(files);
    let single = files.len() == 1;
    let ss = dash_joined(sec.as_slice(), sub.as_slice());
    let ssl = dash_joined(ss.as_slice(), leaf.as_slice());
    let mut m: usize = 0;
    assert(pages_view(out@) =~= mid + leaf_pages_upto(sec@, sub@, leaf@, files@, o, i as int, j as int, 0));
    while m < ord.len()
        invariant
            m <= ord@.len(),
            ord@.len() == files@.len(),
            o == name_order(keys_of(files@)),
            forall|q: int| 0 <= q < ord@.len() ==> #[trigger] ord@[q] < files@.len(),
            forall|q: int| 0 <= q < ord@.len() ==> ord@[q] as int == #[trigger] o[q],
            single == (files@.len() == 1),
            ssl@ == dash_join(dash_join(sec@, sub@), leaf@),
            ss@ == dash_join(sec@, sub@),
            pages_view(out@) == mid + leaf_pages_upto(sec@, sub@, leaf@, files@, o, i as int, j as int, m as int),
            mid.len() + leaf_pages_upto(sec@, sub@, leaf@, files@, o, i as int, j as int, files@.len() as int).len() <= i32::MAX,
            forall|k: int| 0 <= k < out@.len() ==> #[trigger] out@[k].order == k,
        decreases ord@.len() - m,
    {
        let idx = ord[m];
        assert(idx as int == o[m as int]);
        let stem = opt_chars(&files[idx].entry);
        let slug = if single || chars_eq(stem.as_slice(), leaf.as_slice()) {
            dash_joined(ss.as_slice(), leaf.as_slice())
        } else {
            dash_joined(ssl.as_slice(), stem.as_slice())
        };
        proof {
            lemma_leaf_len(sec@, sub@, leaf@, files@, o, i as int, j as int, m + 1, files@.len() as int);
            assert(out@.len() == pages_view(out@).len());
        }
        assert(slug@ == leaf_slug(sec@, sub@, leaf@, opt_name(files@[o[m as int]].entry), single));
        push_page(out, slug, PagePlace::Leaf(i, j, idx));
        assert(pages_view(out@) =~= mid + leaf_pages_upto(sec@, sub@, leaf@, files@, o, i as int, j as int, m + 1));
        m = m + 1;
    }
}

/// Appends the pages of the page directory `sub`, the `i`-th entry of the section.
fn push_sub_pages(
    out: &mut Vec<SectionPage>,
    sec: &Vec<char>,
    sub: &Vec<char>,
    subs: &Vec<Named<SubEntry>>,
    i: usize,
)
    requires
        old(out)@.len() + sub_pages_upto(sec@, sub@, subs@, name_order(keys_of(subs@)), i as int, subs@.len() as int).len() <= i32::MAX,
        forall|k: int| 0 <= k < old(out)@.len() ==> #[trigger] old(out)@[k].order == k,
    ensures
        pages_view(final(out)@) == pages_view(old(out)@) + sub_pages_upto(sec@, sub@, subs@, name_order(keys_of(subs@)), i as int, subs@.len() as int),
        forall|k: int| 0 <= k < final(out)@.len() ==> #[trigger] final(out)@[k].order == k,
{
    let ghost o = name_order(keys_of(subs@));
    let ghost before = pages_view(out@);
    let ord = order_by_name(subs);
    let mut p: usize = 0;
    assert(pages_view(out@) =~= before + sub_pages_upto(sec@, sub@, subs@, o, i as int, 0));
    while p < ord.len()
        invariant
            p <= ord@.len(),
            ord@.len() == subs@.len(),
            o == name_order(keys_of(subs@)),
            forall|q: int| 0 <= q < ord@.len() ==> #[trigger] ord@[q] < subs@.len(),
            forall|q: int| 0 <= q < ord@.len() ==> ord@[q] as int == #[trigger] o[q],
            pages_view(out@) == before + sub_pages_upto(sec@, sub@, subs@, o, i as int, p as int),
            before.len() + sub_pages_upto(sec@, sub@, subs@, o, i as int, subs@.len() as int).len() <= i32::MAX,
            forall|k: int| 0 <= k < out@.len() ==> #[trigger] out@[k].order == k,
        decreases ord@.len() - p,
    {
        proof {
            lemma_sub_pages_len_mono(sec@, sub@, subs@, o, i as int, p + 1, subs@.len() as int);
        }
        let j = ord[p];
        assert(j as int == o[p as int]);
        let ghost mid = pages_view(out@);
        assert(sub_pages_upto(sec@, sub@, subs@, o, i as int, p + 1) == sub_pages_upto(sec@, sub@, subs@, o, i as int, p as int)
            + sub_entry_pages(sec@, sub@, subs@[j as int].entry, i as int, j as int));
        match &subs[j].entry {
            SubEntry::Markdown => {
                assert(out@.len() == pages_view(out@).len());
                let slug = dash_joined(sec.as_slice(), sub.as_slice());
                push_page(out, slug, PagePlace::Sub(i, j));
            },
            SubEntry::Directory { name: leaf_name, md_files } => {
                let leaf = opt_chars(leaf_name);
                if leaf.len() > 0 {
                    assert(out@.len() == pages_view(out@).len());
                    push_leaf_pages(out, sec, sub, &leaf, md_files, i, j);
                }
            },
            SubEntry::Other => {},
        }
        assert(pages_view(out@) =~= before + sub_pages_upto(sec@, sub@, subs@, o, i as int, p + 1));
        p = p + 1;
    }
}

/// The pages of a section, from the entries of its directory as listed:
/// depth first, each directory's entries in the order of their names; the
/// order of each page is its position in the list.
pub fn collect_section_pages(section_slug: &str, entries: &Vec<Named<SectionEntry>>) -> (r: Vec<SectionPage>)
    requires
        section_pages(section_slug@, entries@).len() <= i32::MAX,
    ensures
        pages_view(r@) == section_pages(section_slug@, entries@),
        forall|k: int| 0 <= k < r@.len() ==> #[trigger] r@[k].order == k,
{
    let sec = chars_of(section_slug);
    let ghost o = name_order(keys_of(entries@));
    let ghost total = section_pages(section_slug@, entries@).len();
    let ord = order_by_name(entries);
    let mut out: Vec<SectionPage> = Vec::new();
    let mut p: usize = 0;
    assert(pages_view(out@) =~= Seq::<(Seq<char>, PagePlace)>::empty());
    while p < ord.len()
        invariant
            sec@ == section_slug@,
            p <= ord@.len(),
            ord@.len() == entries@.len(),
            o == name_order(keys_of(entries@)),
            forall|q: int| 0 <= q < ord@.len() ==> #[trigger] ord@[q] < entries@.len(),
            forall|q: int| 0 <= q < ord@.len() ==> ord@[q] as int == #[trigger] o[q],
            total == section_pages_upto(sec@, entries@, o, entries@.len() as int).len(),
            total <= i32::MAX,
            pages_view(out@) == section_pages_upto(sec@, entries@, o, p as int),
            forall|k: int| 0 <= k < out@.len() ==> #[trigger] out@[k].order == k,
        decreases ord@.len() - p,
    {
        proof {
            lemma_section_pages_len_mono(sec@, entries@, o, p + 1, entries@.len() as int);
        }
        let i = ord[p];
        assert(i as int == o[p as int]);
        assert(section_pages_upto(sec@, entries@, o, p + 1) == section_pages_upto(sec@, entries@, o, p as int)
            + entry_pages(sec@, entries@[i as int].entry, i as int));
        match &entries[i].entry {
            SectionEntry::Markdown => {
                assert(out@.len() == pages_view(out@).len());
                let idx = chars_of("index");
                let slug = dash_joined(sec.as_slice(), idx.as_slice());
                push_page(&mut out, slug, PagePlace::Index(i));
            },
            SectionEntry::Directory { name, entries: subs } => {
                let sub = opt_chars(name);
                if sub.len() > 0 {
                    assert(out@.len() == pages_view(out@).len());
                    push_sub_pages(&mut out, &sec, &sub, subs, i);
                }
            },
            SectionEntry::Other => {},
        }
        assert(pages_view(out@) =~= section_pages_upto(sec@, entries@, o, p + 1));
        p = p + 1;
    }
    out
}


pub proof fn lemma_leaf_count(
    section: Seq<char>,
    sub: Seq<char>,
    leaf: Seq<char>,
    files: Seq<Named<Option<String>>>,
    ord: Seq<int>,
    i: int,
    j: int,
    n: int,
)
    requires
        0 <= n,
    ensures
        leaf_pages_upto(section, sub, leaf, files, ord, i, j, n).len() == n,
    decreases n,
{
    if n > 0 {
        lemma_leaf_count(section, sub, leaf, files, ord, i, j, n - 1);
    }
}

/// The number of pages of the page directory `sub`, when it is at most `limit`.
fn count_sub_pages(sec: &Vec<char>, sub: &Vec<char>, subs: &Vec<Named<SubEntry>>, i: usize, limit: u64) -> (r: Option<u64>)
    ensures
        match r {
            Some(c) => c == sub_pages_upto(sec@, sub@, subs@, name_order(keys_of(subs@)), i as int, subs@.len() as int).len()
                && c <= limit,
            None => sub_pages_upto(sec@, sub@, subs@, name_order(keys_of(subs@)), i as int, subs@.len() as int).len() > limit,
        },
{
    let ghost o = name_order(keys_of(subs@));
    let ord = order_by_name(subs);
    let mut c: u64 = 0;
    let mut p: usize = 0;
    while p < ord.len()
        invariant
            p <= ord@.len(),
            ord@.len() == subs@.len(),
            o == name_order(keys_of(subs@)),
            forall|q: int| 0 <= q < ord@.len() ==> #[trigger] ord@[q] < subs@.len(),
            forall|q: int| 0 <= q < ord@.len() ==> ord@[q] as int == #[trigger] o[q],
            c == sub_pages_upto(sec@, sub@, subs@, o, i as int, p as int).len(),
            c <= limit,
        decreases ord@.len() - p,
    {
        let j = ord[p];
        assert(j as int == o[p as int]);
        assert(sub_pages_upto(sec@, sub@, subs@, o, i as int, p + 1) == sub_pages_upto(sec@, sub@, subs@, o, i as int, p as int)
            + sub_entry_pages(sec@, sub@, subs@[j as int].entry, i as int, j as int));
        let add: usize = match &subs[j].entry {
            SubEntry::Markdown => 1,
            SubEntry::Directory { name, md_files } => {
                let leaf = opt_chars(name);
                if leaf.len() > 0 {
                    proof {
                        lemma_leaf_count(sec@, sub@, leaf@, md_files@, name_order(keys_of(md_files@)), i as int, j as int, md_files@.len() as int);
                    }
                    md_files.len()
                } else {
                    0
                }
            },
            SubEntry::Other => 0,
        };
        assert(add == sub_entry_pages(sec@, sub@, subs@[j as int].entry, i as int, j as int).len());
        if add as u64 > limit - c {
            proof {
                lemma_sub_pages_len_mono(sec@, sub@, subs@, o, i as int, p + 1, subs@.len() as int);
            }
            return None;
        }
        c = c + add as u64;
        p = p + 1;
    }
    Some(c)
}

/// The pages of a section as `collect_section_pages` gives them, or `None`
/// when the section has more pages than an `i32` order can number.
pub fn collect_section_pages_checked(section_slug: &str, entries: &Vec<Named<SectionEntry>>) -> (r: Option<Vec<SectionPage>>)
    ensures
        r is None <==> section_pages(section_slug@, entries@).len() > i32::MAX,
        r matches Some(v) ==> pages_view(v@) == section_pages(section_slug@, entries@) && forall|k: int|
            0 <= k < v@.len() ==> #[trigger] v@[k].order == k,
{
    let sec = chars_of(section_slug);
    let ghost o = name_order(keys_of(entries@));
    let ord = order_by_name(entries);
    let limit: u64 = 2147483647;
    let mut c: u64 = 0;
    let mut p: usize = 0;
    while p < ord.len()
        invariant
            sec@ == section_slug@,
            p <= ord@.len(),
            ord@.len() == entries@.len(),
            o == name_order(keys_of(entries@)),
            forall|q: int| 0 <= q < ord@.len() ==> #[trigger] ord@[q] < entries@.len(),
            forall|q: int| 0 <= q < ord@.len() ==> ord@[q] as int == #[trigger] o[q],
            c == section_pages_upto(sec@, entries@, o, p as int).len(),
            c <= limit,
            limit == i32::MAX,
        decreases ord@.len() - p,
    {
        let i = ord[p];
        assert(i as int == o[p as int]);
        assert(section_pages_upto(sec@, entries@, o, p + 1) == section_pages_upto(sec@, entries@, o, p as int)
            + entry_pages(sec@, entries@[i as int].entry, i as int));
        let here: Option<u64> = match &entries[i].entry {
            SectionEntry::Markdown => if c < limit { Some(1) } else { None },
            SectionEntry::Directory { name, entries: subs } => {
                let sub = opt_chars(name);
                if sub.len() > 0 {
                    count_sub_pages(&sec, &sub, subs, i, limit - c)
                } else {
                    Some(0)
                }
            },
            SectionEntry::Other => Some(0),
        };
        match here {
            Some(add) => {
                assert(add == entry_pages(sec@, entries@[i as int].entry, i as int).len());
                c = c + add;
            },
            None => {
                proof {
                    lemma_section_pages_len_mono(sec@, entries@, o, p + 1, entries@.len() as int);
                }
                return None;
            },
        }
        p = p + 1;
    }
    Some(collect_section_pages(section_slug, entries))
}

/// The slug under which the documentation handler looks a page up: `{section}-{page}`.
pub fn doc_page_slug(section_slug: &str, page_slug: &str) -> (r: String)
    ensures
        r@ == dash_join(section_slug@, page_slug@),
{
    let a = chars_of(section_slug);
    let b = chars_of(page_slug);
    string_of(dash_joined(a.as_slice(), b.as_slice()).as_slice())
}

/// A slug that belongs to a section: it starts with `{section}-`.
pub open spec fn in_section(section: Seq<char>, slug: Seq<char>) -> bool {
    starts_with(slug, section + seq!['-'])
}

pub proof fn lemma_dash_join_in_section(section: Seq<char>, rest: Seq<char>)
    ensures
        in_section(section, dash_join(section, rest)),
{
    let s = dash_join(section, rest);
    assert(s.subrange(0, section.len() as int + 1) =~= section + seq!['-']);
}

pub proof fn lemma_leaf_pages_in_section(
    section: Seq<char>,
    sub: Seq<char>,
    leaf: Seq<char>,
    files: Seq<Named<Option<String>>>,
    ord: Seq<int>,
    i: int,
    j: int,
    n: int,
)
    ensures
        forall|k: int|
            0 <= k < leaf_pages_upto(section, sub, leaf, files, ord, i, j, n).len() ==> in_section(
                section,
                #[trigger] leaf_pages_upto(section, sub, leaf, files, ord, i, j, n)[k].0,
            ),
    decreases n,
{
    if n > 0 {
        lemma_leaf_pages_in_section(section, sub, leaf, files, ord, i, j, n - 1);
        let stem = opt_name(files[ord[n - 1]].entry);
        lemma_dash_join_in_section(section, sub + seq!['-'] + leaf);
        lemma_dash_join_in_section(section, sub + seq!['-'] + leaf + seq!['-'] + stem);
        assert(dash_join(dash_join(section, sub), leaf) =~= dash_join(section, sub + seq!['-'] + leaf));
        assert(dash_join(dash_join(dash_join(section, sub), leaf), stem) =~= dash_join(
            section,
            sub + seq!['-'] + leaf + seq!['-'] + stem,
        ));
        let prev = leaf_pages_upto(section, sub, leaf, files, ord, i, j, n - 1);
        let all = leaf_pages_upto(section, sub, leaf, files, ord, i, j, n);
        assert forall|k: int| 0 <= k < all.len() implies in_section(section, #[trigger] all[k].0) by {
            if k < prev.len() {
                assert(all[k] == prev[k]);
            }
        }
    }
}

pub proof fn lemma_sub_pages_in_section(
    section: Seq<char>,
    sub: Seq<char>,
    subs: Seq<Named<SubEntry>>,
    ord: Seq<int>,
    i: int,
    n: int,
)
    ensures
        forall|k: int|
            0 <= k < sub_pages_upto(section, sub, subs, ord, i, n).len() ==> in_section(
                section,
                #[trigger] sub_pages_upto(section, sub, subs, ord, i, n)[k].0,
            ),
    decreases n,
{
    if n > 0 {
        lemma_sub_pages_in_section(section, sub, subs, ord, i, n - 1);
        let e = subs[ord[n - 1]].entry;
        let prev = sub_pages_upto(section, sub, subs, ord, i, n - 1);
        let here = sub_entry_pages(section, sub, e, i, ord[n - 1]);
        match e {
            SubEntry::Markdown => {
                lemma_dash_join_in_section(section, sub);
            },
            SubEntry::Directory { name, md_files } => {
                lemma_leaf_pages_in_section(
                    section,
                    sub,
                    opt_name(name),
                    md_files@,
                    name_order(keys_of(md_files@)),
                    i,
                    ord[n - 1],
                    md_files@.len() as int,
                );
            },
            SubEntry::Other => {},
        }
        assert forall|k: int| 0 <= k < (prev + here).len() implies in_section(section, #[trigger] (prev + here)[k].0) by {
            if k >= prev.len() {
                assert((prev + here)[k] == here[k - prev.len()]);
            }
        }
    }
}

pub proof fn lemma_section_pages_in_section(
    section: Seq<char>,
    entries: Seq<Named<SectionEntry>>,
    ord: Seq<int>,
    n: int,
)
    ensures
        forall|k: int|
            0 <= k < section_pages_upto(section, entries, ord, n).len() ==> in_section(
                section,
                #[trigger] section_pages_upto(section, entries, ord, n)[k].0,
            ),
    decreases n,
{
    if n > 0 {
        lemma_section_pages_in_section(section, entries, ord, n - 1);
        let e = entries[ord[n - 1]].entry;
        let prev = section_pages_upto(section, entries, ord, n - 1);
        let here = entry_pages(section, e, ord[n - 1]);
        match e {
            SectionEntry::Markdown => {
                lemma_dash_join_in_section(section, "index"@);
            },
            SectionEntry::Directory { name, entries: subs } => {
                lemma_sub_pages_in_section(
                    section,
                    opt_name(name),
                    subs@,
                    name_order(keys_of(subs@)),
                    ord[n - 1],
                    subs@.len() as int,
                );
            },
            SectionEntry::Other => {},
        }
        assert forall|k: int| 0 <= k < (prev + here).len() implies in_section(section, #[trigger] (prev + here)[k].0) by {
            if k >= prev.len() {
                assert((prev + here)[k] == here[k - prev.len()]);
            }
        }
    }
}

/// Every page that the seeder stores for a section is found again by the
/// documentation route `/docs/{lang}/{section}/{page}`: its slug starts with
/// `{section}-`, and the slug that the handler builds from the rest of it,
/// `{section}-{page}`, is the page's slug.
pub proof fn law_section_pages_route_back(section: Seq<char>, entries: Seq<Named<SectionEntry>>, k: int)
    requires
        0 <= k < section_pages(section, entries).len(),
    ensures
        ({
            let slug = section_pages(section, entries)[k].0;
            &&& in_section(section, slug)
            &&& dash_join(section, slug.subrange(section.len() as int + 1, slug.len() as int)) == slug
        }),
{
    lemma_section_pages_in_section(section, entries, name_order(keys_of(entries)), entries.len() as int);
    let slug = section_pages(section, entries)[k].0;
    assert(slug.subrange(0, section.len() as int + 1) == section + seq!['-']);
    assert(dash_join(section, slug.subrange(section.len() as int + 1, slug.len() as int)) =~= slug) by {
        assert forall|m: int| 0 <= m < section.len() as int + 1 implies slug[m] == (section + seq!['-'])[m] by {
            assert(slug.subrange(0, section.len() as int + 1)[m] == slug[m]);
        }
    }
}

/// `/docs/{lang}/{section}`.
pub open spec fn section_url(lang: Seq<char>, section: Seq<char>) -> Seq<char> {
    "/docs/"@ + lang + seq!['/'] + section
}

/// The URLs at which the documentation serves the page `slug` of a section:
/// the index page at the section's URL and at `/index` below it, any other
/// page at `/{page}` below it, `{page}` being the slug without `{section}-`.
pub open spec fn urls_of_slug(lang: Seq<char>, section: Seq<char>, slug: Seq<char>) -> Seq<Seq<char>> {
    if slug == dash_join(section, "index"@) {
        seq![section_url(lang, section), section_url(lang, section) + seq!['/'] + "index"@]
    } else {
        let page = if in_section(section, slug) {
            slug.subrange(section.len() as int + 1, slug.len() as int)
        } else {
            slug
        };
        seq![section_url(lang, section) + seq!['/'] + page]
    }
}

/// Every URL at which the documentation serves a page of a section leads
/// back to that page: it is the section's URL, and the page is the section's
/// index, or it is `{section URL}/{page}` and the handler's slug
/// `{section}-{page}` is the page's slug.
pub proof fn law_page_urls_route_back(lang: Seq<char>, section: Seq<char>, entries: Seq<Named<SectionEntry>>, k: int)
    requires
        0 <= k < section_pages(section, entries).len(),
    ensures
        ({
            let slug = section_pages(section, entries)[k].0;
            let urls = urls_of_slug(lang, section, slug);
            &&& urls.len() > 0
            &&& forall|i: int| 0 <= i < urls.len() ==> {
                ||| (#[trigger] urls[i] == section_url(lang, section) && slug == dash_join(section, "index"@))
                ||| exists|p: Seq<char>| urls[i] == section_url(lang, section) + seq!['/'] + p && dash_join(section, p) == slug
            }
        }),
{
    law_section_pages_route_back(section, entries, k);
    let slug = section_pages(section, entries)[k].0;
    let urls = urls_of_slug(lang, section, slug);
    let base = section_url(lang, section);
    if slug == dash_join(section, "index"@) {
        assert(urls[1] == base + seq!['/'] + "index"@);
    } else {
        let rest = slug.subrange(section.len() as int + 1, slug.len() as int);
        assert(urls[0] == base + seq!['/'] + rest);
    }
}

/// The URLs served for the page `slug` of a section, following the routing.
pub fn slug_to_urls(lang: &str, section: &str, slug: &str) -> (r: Vec<String>)
    ensures
        r@.map_values(|u: String| u@) == urls_of_slug(lang@, section@, slug@),
{
    let l = chars_of(lang);
    let sec = chars_of(section);
    let sl = chars_of(slug);
    let idx = chars_of("index");
    let mut base = chars_of("/docs/");
    append_chars(&mut base, l.as_slice());
    base.push('/');
    append_chars(&mut base, sec.as_slice());
    assert(base@ =~= section_url(lang@, section@));
    let index_slug = dash_joined(sec.as_slice(), idx.as_slice());
    let mut out: Vec<String> = Vec::new();
    if chars_eq(sl.as_slice(), index_slug.as_slice()) {
        let mut second = copy_range(base.as_slice(), 0, base.len());
        second.push('/');
        append_chars(&mut second, idx.as_slice());
        let s1 = string_of(base.as_slice());
        let s2 = string_of(second.as_slice());
        assert(base@.subrange(0, base@.len() as int) =~= base@);
        assert(s2@ =~= section_url(lang@, section@) + seq!['/'] + "index"@);
        assert(sl@ == dash_join(section@, "index"@));
        out.push(s1);
        out.push(s2);
        assert(out@.map_values(|u: String| u@) =~= urls_of_slug(lang@, section@, slug@));
    } else {
        let mut prefix = copy_range(sec.as_slice(), 0, sec.len());
        prefix.push('-');
        assert(sec@.subrange(0, sec@.len() as int) =~= sec@);
        assert(prefix@ =~= section@ + seq!['-']);
        let page = if has_prefix(sl.as_slice(), prefix.as_slice()) {
            copy_range(sl.as_slice(), prefix.len(), sl.len())
        } else {
            copy_range(sl.as_slice(), 0, sl.len())
        };
        assert(sl@.subrange(0, sl@.len() as int) =~= sl@);
        let mut url = copy_range(base.as_slice(), 0, base.len());
        assert(base@.subrange(0, base@.len() as int) =~= base@);
        url.push('/');
        append_chars(&mut url, page.as_slice());
        let u = string_of(url.as_slice());
        assert(sl@ != dash_join(section@, "index"@));
        assert(u@ =~= section_url(lang@, section@) + seq!['/'] + page@);
        out.push(u);
        assert(out@.map_values(|u: String| u@) =~= urls_of_slug(lang@, section@, slug@));
    }
    out
}


/// `](/docs/`, where an inline markdown link to the documentation starts.
pub open spec fn doc_link_mark() -> Seq<char> {
    seq![']', '(', '/', 'd', 'o', 'c', 's', '/']
}

/// A character that ends a link target.
pub open spec fn is_link_end() -> spec_fn(char) -> bool {
    |c: char| c == ')' || c == ' ' || c == '"' || c == '\n'
}

/// The targets of the inline links `](/docs/...)` in `s` from index `i` on:
/// each runs from the `/` after `](` to the next `)`, space, `"` or newline.
pub open spec fn links_from(s: Seq<char>, i: int) -> Seq<Seq<char>>
    decreases s.len() - i,
{
    if i < 0 || i > s.len() {
        Seq::empty()
    } else {
        match find_str(s.subrange(i, s.len() as int), doc_link_mark()) {
            None => Seq::empty(),
            Some(rel) => {
                let start = i + rel + 2;
                if start <= s.len() {
                    let end = start + span_until(s.subrange(start, s.len() as int), is_link_end());
                    proof {
                        lemma_span_until_bound(s.subrange(start, s.len() as int), is_link_end());
                    }
                    seq![s.subrange(start, end)] + links_from(s, end)
                } else {
                    Seq::empty()
                }
            },
        }
    }
}

/// The targets of the inline documentation links `](/docs/...)` of a page.
pub fn extract_doc_links(content: &str) -> (r: Vec<String>)
    ensures
        r@.map_values(|u: String| u@) == links_from(content@, 0),
{
    let s = chars_of(content);
    let mark = vec![']', '(', '/', 'd', 'o', 'c', 's', '/'];
    assert(mark@ == doc_link_mark());
    let n = s.len();
    let mut links: Vec<String> = Vec::new();
    let mut i: usize = 0;
    loop
        invariant
            n == s@.len(),
            s@ == content@,
            mark@ == doc_link_mark(),
            i <= n,
            links@.map_values(|u: String| u@) + links_from(s@, i as int) == links_from(s@, 0),
        decreases n - i,
    {
        let ghost before = links@.map_values(|u: String| u@);
        match find_in_suffix(s.as_slice(), mark.as_slice(), i) {
            None => {
                assert(links_from(s@, i as int) =~= Seq::<Seq<char>>::empty());
                assert(before + Seq::<Seq<char>>::empty() =~= before);
                return links;
            },
            Some(p) => {
                let start = p + 2;
                let mut end = start;
                while end < n && !(s[end] == ')' || s[end] == ' ' || s[end] == '"' || s[end] == '\n')
                    invariant
                        n == s@.len(),
                        start <= end <= n,
                        forall|k: int| start <= k < end ==> !is_link_end()(#[trigger] s@[k]),
                    decreases n - end,
                {
                    end = end + 1;
                }
                proof {
                    let t = s@.subrange(start as int, n as int);
                    assert forall|k: int| 0 <= k < end - start implies !is_link_end()(#[trigger] t[k]) by {
                        assert(t[k] == s@[k + start]);
                    }
                    if end < n {
                        assert(t[end - start] == s@[end as int]);
                    }
                    lemma_span_until(t, is_link_end(), end - start);
                }
                let link = string_of(copy_range(s.as_slice(), start, end).as_slice());
                links.push(link);
                assert(links@.map_values(|u: String| u@) =~= before.push(s@.subrange(start as int, end as int)));
                i = end;
            },
        }
    }
}

/// A character that ends the path of a link: `#` or `?`.
pub open spec fn is_path_end() -> spec_fn(char) -> bool {
    |c: char| c == '#' || c == '?'
}

/// A link reduced to its path: the part before any `#` or `?`, without trailing `/`.
pub open spec fn normalized_link(l: Seq<char>) -> Seq<char> {
    trim_char_end(l.subrange(0, span_until(l, is_path_end()) as int), '/')
}

/// Reduces a link to its path: drops the fragment or query and the trailing slashes.
pub fn normalize_link(link: &str) -> (r: String)
    ensures
        r@ == normalized_link(link@),
{
    let s = chars_of(link);
    let n = s.len();
    let mut end: usize = 0;
    while end < n && !(s[end] == '#' || s[end] == '?')
        invariant
            n == s@.len(),
            end <= n,
            forall|k: int| 0 <= k < end ==> !is_path_end()(#[trigger] s@[k]),
        decreases n - end,
    {
        end = end + 1;
    }
    proof {
        lemma_span_until(s@, is_path_end(), end as int);
    }
    let head = copy_range(s.as_slice(), 0, end);
    string_of(trimmed_char_end(head.as_slice(), '/').as_slice())
}


/// The rank of a course difficulty in the documentation index: beginner,
/// intermediate, advanced, specific, then anything else.
pub open spec fn difficulty_rank(d: Seq<char>) -> int {
    if d == "debutant"@ {
        0
    } else if d == "intermediaire"@ {
        1
    } else if d == "avance"@ {
        2
    } else if d == "specifique"@ {
        3
    } else {
        99
    }
}

/// Where `x` goes in `s`: after the leading difficulties of rank at most its own.
pub open spec fn rank_insert_pos(s: Seq<Seq<char>>, x: Seq<char>) -> nat
    decreases s.len(),
{
    if s.len() == 0 || difficulty_rank(s[0]) > difficulty_rank(x) {
        0
    } else {
        1 + rank_insert_pos(s.drop_first(), x)
    }
}

/// The difficulties sorted by rank, equal ranks kept in their order.
pub open spec fn sorted_by_rank(xs: Seq<Seq<char>>) -> Seq<Seq<char>>
    decreases xs.len(),
{
    if xs.len() == 0 {
        Seq::empty()
    } else {
        let s = sorted_by_rank(xs.drop_last());
        s.insert(rank_insert_pos(s, xs.last()) as int, xs.last())
    }
}

pub proof fn lemma_rank_insert_pos_bound(s: Seq<Seq<char>>, x: Seq<char>)
    ensures
        rank_insert_pos(s, x) <= s.len(),
    decreases s.len(),
{
    if s.len() > 0 && difficulty_rank(s[0]) <= difficulty_rank(x) {
        lemma_rank_insert_pos_bound(s.drop_first(), x);
    }
}

/// The rank of a difficulty.
fn rank_of(d: &str) -> (r: u32)
    ensures
        r == difficulty_rank(d@),
{
    let c = chars_of(d);
    if chars_eq(c.as_slice(), chars_of("debutant").as_slice()) {
        0
    } else if chars_eq(c.as_slice(), chars_of("intermediaire").as_slice()) {
        1
    } else if chars_eq(c.as_slice(), chars_of("avance").as_slice()) {
        2
    } else if chars_eq(c.as_slice(), chars_of("specifique").as_slice()) {
        3
    } else {
        99
    }
}

/// Orders the course difficulties of the documentation index.
pub fn sort_difficulties(ds: Vec<String>) -> (r: Vec<String>)
    ensures
        r@.map_values(|s: String| s@) == sorted_by_rank(ds@.map_values(|s: String| s@)),
{
    let ghost xs = ds@.map_values(|s: String| s@);
    let ghost orig = ds@;
    let mut ds = ds;
    let len0 = ds.len();
    let mut sorted: Vec<String> = Vec::new();
    let mut k: usize = 0;
    assert(orig.subrange(0, orig.len() as int) =~= orig);
    while ds.len() > 0
        invariant
            orig.len() == len0,
            k <= orig.len(),
            xs == orig.map_values(|s: String| s@),
            ds@ == orig.subrange(k as int, orig.len() as int),
            sorted@.map_values(|s: String| s@) == sorted_by_rank(xs.subrange(0, k as int)),
        decreases ds@.len(),
    {
        assert(k < orig.len());
        let x = ds.remove(0);
        assert(ds@ =~= orig.subrange(k + 1, orig.len() as int));
        let ghost sv = sorted@.map_values(|s: String| s@);
        let rx = rank_of(x.as_str());
        let mut pos: usize = 0;
        assert(sv.subrange(0, sv.len() as int) =~= sv);
        while pos < sorted.len() && rank_of(sorted[pos].as_str()) <= rx
            invariant
                pos <= sorted@.len(),
                sv == sorted@.map_values(|s: String| s@),
                rx == difficulty_rank(x@),
                rank_insert_pos(sv, x@) == pos + rank_insert_pos(sv.subrange(pos as int, sv.len() as int), x@),
            decreases sorted@.len() - pos,
        {
            proof {
                let t = sv.subrange(pos as int, sv.len() as int);
                assert(t.drop_first() =~= sv.subrange(pos + 1, sv.len() as int));
                assert(t[0] == sorted@[pos as int]@);
            }
            pos = pos + 1;
        }
        proof {
            let t = sv.subrange(pos as int, sv.len() as int);
            if pos < sv.len() {
                assert(t[0] == sorted@[pos as int]@);
            }
            lemma_rank_insert_pos_bound(sv, x@);
            let pre = xs.subrange(0, k + 1);
            assert(pre.drop_last() =~= xs.subrange(0, k as int));
            assert(pre.last() == x@);
        }
        sorted.insert(pos, x);
        assert(sorted@.map_values(|s: String| s@) =~= sv.insert(pos as int, x@));
        k = k + 1;
    }
    assert(xs.subrange(0, k as int) =~= xs);
    sorted
}


proof fn lemma_rank_insert_pos_split(s: Seq<Seq<char>>, x: Seq<char>)
    ensures
        forall|k: int| 0 <= k < rank_insert_pos(s, x) ==> difficulty_rank(#[trigger] s[k]) <= difficulty_rank(x),
        rank_insert_pos(s, x) < s.len() ==> difficulty_rank(s[rank_insert_pos(s, x) as int]) > difficulty_rank(x),
    decreases s.len(),
{
    if s.len() > 0 && difficulty_rank(s[0]) <= difficulty_rank(x) {
        lemma_rank_insert_pos_split(s.drop_first(), x);
        lemma_rank_insert_pos_bound(s.drop_first(), x);
        assert forall|k: int| 0 <= k < rank_insert_pos(s, x) implies difficulty_rank(#[trigger] s[k]) <= difficulty_rank(x) by {
            if k > 0 {
                assert(s[k] == s.drop_first()[k - 1]);
            }
        }
    }
}

/// The difficulties of the index come in teaching order (beginner,
/// intermediate, advanced, specific, then the others), and each difficulty
/// given is listed, as often as it was given.
pub proof fn law_difficulties_in_order(xs: Seq<Seq<char>>)
    ensures
        sorted_by_rank(xs).to_multiset() == xs.to_multiset(),
        forall|i: int, j: int|
            0 <= i < j < sorted_by_rank(xs).len() ==> difficulty_rank(sorted_by_rank(xs)[i]) <= difficulty_rank(
                sorted_by_rank(xs)[j],
            ),
    decreases xs.len(),
{
    broadcast use vstd::seq_lib::group_to_multiset_ensures;

    if xs.len() > 0 {
        let rest = xs.drop_last();
        law_difficulties_in_order(rest);
        let s = sorted_by_rank(rest);
        let x = xs.last();
        let p = rank_insert_pos(s, x) as int;
        lemma_rank_insert_pos_bound(s, x);
        lemma_rank_insert_pos_split(s, x);
        vstd::seq_lib::to_multiset_insert(s, p, x);
        vstd::seq_lib::to_multiset_build(rest, x);
        assert(rest.push(x) =~= xs);
        let r = s.insert(p, x);
        assert forall|i: int, j: int| 0 <= i < j < r.len() implies difficulty_rank(r[i]) <= difficulty_rank(r[j]) by {
            if j < p {
                assert(r[i] == s[i] && r[j] == s[j]);
            } else if j == p {
                assert(r[i] == s[i]);
            } else if i < p {
                assert(r[i] == s[i] && r[j] == s[j - 1]);
                assert(difficulty_rank(s[p]) <= difficulty_rank(s[j - 1]));
            } else if i == p {
                assert(r[j] == s[j - 1]);
                assert(difficulty_rank(s[p]) <= difficulty_rank(s[j - 1]));
            } else {
                assert(r[i] == s[i - 1] && r[j] == s[j - 1]);
            }
        }
    }
}

/// Removing anchors never lengthens a page, and a page without `<a id=` is
/// left as it is.
pub proof fn law_strip_anchors_shrinks(s: Seq<char>)
    ensures
        strip_anchors(s).len() <= s.len(),
        find_str(s, anchor_open()) is None ==> strip_anchors(s) == s,
{
    lemma_strip_anchors_from_shrinks(s, true, false);
}

proof fn lemma_strip_anchors_from_shrinks(s: Seq<char>, at_start: bool, prev_blank: bool)
    ensures
        strip_anchors_from(s, at_start, prev_blank).len() <= s.len(),
    decreases s.len(),
{
    match find_str(s, anchor_open()) {
        None => {},
        Some(i) => {
            match find_str(s.subrange(i as int, s.len() as int), anchor_close()) {
                None => {},
                Some(e) => {
                    if i + e + 4 <= s.len() {
                        let head = s.subrange(0, i as int);
                        let st = line_state_after(head, at_start, prev_blank);
                        let rest = s.subrange(i as int + e + 4, s.len() as int);
                        let k = left_newlines(rest, st.0, st.1);
                        lemma_strip_anchors_from_shrinks(s.subrange(i as int + e + 4 + k, s.len() as int), st.0, st.1);
                    }
                },
            }
        },
    }
}

proof fn lemma_parts_blocks_nonempty(parts: Seq<Seq<char>>)
    ensures
        forall|k: int| 0 <= k < parts_blocks(parts).len() ==> (#[trigger] parts_blocks(parts)[k]).1.len() > 0,
    decreases parts.len(),
{
    if parts.len() > 0 {
        lemma_parts_blocks_nonempty(parts.drop_first());
        let a = part_blocks(parts[0]);
        let b = parts_blocks(parts.drop_first());
        assert forall|k: int| 0 <= k < (a + b).len() implies (#[trigger] (a + b)[k]).1.len() > 0 by {
            if k >= a.len() {
                assert((a + b)[k] == b[k - a.len()]);
            }
        }
    }
}

/// Every block of a page has some content.
pub proof fn law_page_blocks_nonempty(content: Seq<char>)
    ensures
        forall|k: int| 0 <= k < page_blocks(content).len() ==> (#[trigger] page_blocks(content)[k]).1.len() > 0,
{
    let parts = split_str(page_body(content), section_sep());
    lemma_parts_blocks_nonempty(parts.drop_first());
    let a = intro_blocks(trim(parts[0]), lowercase(trim(parts[0])));
    let b = parts_blocks(parts.drop_first());
    assert forall|k: int| 0 <= k < (a + b).len() implies (#[trigger] (a + b)[k]).1.len() > 0 by {
        if k >= a.len() {
            assert((a + b)[k] == b[k - a.len()]);
        }
    }
}

proof fn lemma_lead_shape(ls: Seq<Seq<char>>, after_title: bool, in_code: bool)
    ensures
        lead_in(ls, after_title, in_code) matches Some(t) ==> !is_structural(t),
    decreases ls.len(),
{
    if ls.len() > 0 {
        lemma_lead_shape(ls.drop_first(), true, in_code);
        lemma_lead_shape(ls.drop_first(), after_title, in_code);
        lemma_lead_shape(ls.drop_first(), after_title, !in_code);
    }
}

/// A lead is never empty and never a heading, rule, list item, table row,
/// link, HTML tag or quote.
pub proof fn law_lead_is_prose(content: Seq<char>)
    ensures
        lead_in(lines(content), false, false) matches Some(t) ==> t.len() > 0 && !is_structural(t),
{
    lemma_lead_shape(lines(content), false, false);
}


proof fn lemma_part_block_types(part: Seq<char>)
    ensures
        forall|k: int|
            0 <= k < part_blocks(part).len() && (#[trigger] part_blocks(part)[k]).0 is Some ==> ((part_blocks(
                part,
            )[k].2 == "Code"@ && contains_str(part_blocks(part)[k].1, seq!['`', '`', '`'])) || (part_blocks(
                part,
            )[k].2 == "Text"@ && !contains_str(part_blocks(part)[k].1, seq!['`', '`', '`']))),
{
    assert(fence() =~= seq!['`', '`', '`']);
}

proof fn lemma_parts_block_types(parts: Seq<Seq<char>>)
    ensures
        forall|k: int|
            0 <= k < parts_blocks(parts).len() && (#[trigger] parts_blocks(parts)[k]).0 is Some ==> ((parts_blocks(
                parts,
            )[k].2 == "Code"@ && contains_str(parts_blocks(parts)[k].1, seq!['`', '`', '`'])) || (parts_blocks(
                parts,
            )[k].2 == "Text"@ && !contains_str(parts_blocks(parts)[k].1, seq!['`', '`', '`']))),
    decreases parts.len(),
{
    if parts.len() > 0 {
        lemma_part_block_types(parts[0]);
        lemma_parts_block_types(parts.drop_first());
        let a = part_blocks(parts[0]);
        let b = parts_blocks(parts.drop_first());
        assert(parts_blocks(parts) == a + b);
        assert forall|k: int| 0 <= k < (a + b).len() && (#[trigger] (a + b)[k]).0 is Some implies (((a + b)[k].2
            == "Code"@ && contains_str((a + b)[k].1, seq!['`', '`', '`'])) || ((a + b)[k].2 == "Text"@
            && !contains_str((a + b)[k].1, seq!['`', '`', '`']))) by {
            if k < a.len() {
                assert((a + b)[k] == a[k]);
            } else {
                assert((a + b)[k] == b[k - a.len()]);
            }
        }
    }
}

/// A block kept under its section heading is of type `Code` exactly when
/// its content holds a code fence ```` ``` ```` anywhere, and `Text`
/// otherwise; blocks without a heading (introduction, tables of contents)
/// are the only other blocks.
pub proof fn law_section_block_types(content: Seq<char>)
    ensures
        forall|k: int|
            0 <= k < page_blocks(content).len() && (#[trigger] page_blocks(content)[k]).0 is Some ==> ((page_blocks(
                content,
            )[k].2 == "Code"@ && contains_str(page_blocks(content)[k].1, seq!['`', '`', '`'])) || (page_blocks(
                content,
            )[k].2 == "Text"@ && !contains_str(page_blocks(content)[k].1, seq!['`', '`', '`']))),
{
    let parts = split_str(page_body(content), section_sep());
    lemma_parts_block_types(parts.drop_first());
    let a = intro_blocks(trim(parts[0]), lowercase(trim(parts[0])));
    let b = parts_blocks(parts.drop_first());
    assert(page_blocks(content) == a + b);
    assert forall|k: int| 0 <= k < (a + b).len() && (#[trigger] (a + b)[k]).0 is Some implies (((a + b)[k].2
        == "Code"@ && contains_str((a + b)[k].1, seq!['`', '`', '`'])) || ((a + b)[k].2 == "Text"@
        && !contains_str((a + b)[k].1, seq!['`', '`', '`']))) by {
        if k < a.len() {
            assert((a + b)[k] == a[k]);
        } else {
            assert((a + b)[k] == b[k - a.len()]);
        }
    }
}

/// A line that cannot be a lead, by its trimmed text: empty, or starting
/// with one of `#`, `-`, `|`, `[`, `<`, `>`.
proof fn lemma_lead_scan(ls: Seq<Seq<char>>, j: int, k: int)
    requires
        0 <= j <= k < ls.len(),
        forall|m: int|
            j <= m < k ==> {
                let t = #[trigger] trim(ls[m]);
                &&& (t.len() == 0 || t[0] == '#' || t[0] == '-' || t[0] == '|' || t[0] == '[' || t[0] == '<'
                    || t[0] == '>')
                &&& !starts_with(t, seq!['#', '#', ' '])
            },
        trim(ls[k]).len() > 0,
        !(trim(ls[k])[0] == '#' || trim(ls[k])[0] == '-' || trim(ls[k])[0] == '|' || trim(ls[k])[0] == '['
            || trim(ls[k])[0] == '<' || trim(ls[k])[0] == '>'),
        !starts_with(trim(ls[k]), seq!['`', '`', '`']),
    ensures
        lead_in(ls.subrange(j, ls.len() as int), true, false) == Some(trim(ls[k])),
    decreases k - j,
{
    let s = ls.subrange(j, ls.len() as int);
    assert(s[0] == ls[j]);
    assert(s.drop_first() =~= ls.subrange(j + 1, ls.len() as int));
    assert(h2_mark() =~= seq!['#', '#', ' ']);
    assert(fence() =~= seq!['`', '`', '`']);
    let t = trim(ls[j]);
    if j < k {
        if t.len() > 0 {
            assert(t[0] != '`');
            assert(!starts_with(t, fence())) by {
                if starts_with(t, fence()) {
                    assert(t.subrange(0, 3)[0] == t[0]);
                }
            }
        }
        lemma_lead_scan(ls, j + 1, k);
    } else {
        assert(!starts_with(t, h2_mark())) by {
            if starts_with(t, h2_mark()) {
                assert(t.subrange(0, 3)[0] == t[0]);
            }
        }
    }
}

proof fn lemma_lead_title(ls: Seq<Seq<char>>, j: int, h: int)
    requires
        0 <= j <= h < ls.len(),
        forall|m: int| j <= m < h ==> !starts_with(#[trigger] trim(ls[m]), seq!['#', ' ']),
        starts_with(trim(ls[h]), seq!['#', ' ']),
    ensures
        lead_in(ls.subrange(j, ls.len() as int), false, false) == lead_in(ls.subrange(h + 1, ls.len() as int), true, false),
    decreases h - j,
{
    let s = ls.subrange(j, ls.len() as int);
    assert(s[0] == ls[j]);
    assert(s.drop_first() =~= ls.subrange(j + 1, ls.len() as int));
    assert(h1_mark() =~= seq!['#', ' ']);
    if j < h {
        lemma_lead_title(ls, j + 1, h);
    }
}

/// The lead of a page is its first line of prose: when line `h` is the
/// first whose trimmed text starts with `# ` (the title), and line `k` after
/// it is the first line, trimmed, that is not empty and does not start with
/// `#`, `-`, `|`, `[`, `<`, `>` or a code fence, with no `## ` section
/// between them, the lead is line `k` trimmed, whatever else it holds.
pub proof fn law_lead_is_first_prose_line(content: Seq<char>, h: int, k: int)
    requires
        0 <= h < k < lines(content).len(),
        forall|m: int| 0 <= m < h ==> !starts_with(#[trigger] trim(lines(content)[m]), seq!['#', ' ']),
        starts_with(trim(lines(content)[h]), seq!['#', ' ']),
        forall|m: int|
            h < m < k ==> {
                let t = #[trigger] trim(lines(content)[m]);
                &&& (t.len() == 0 || t[0] == '#' || t[0] == '-' || t[0] == '|' || t[0] == '[' || t[0] == '<'
                    || t[0] == '>')
                &&& !starts_with(t, seq!['#', '#', ' '])
            },
        trim(lines(content)[k]).len() > 0,
        !(trim(lines(content)[k])[0] == '#' || trim(lines(content)[k])[0] == '-' || trim(lines(content)[k])[0]
            == '|' || trim(lines(content)[k])[0] == '[' || trim(lines(content)[k])[0] == '<' || trim(
            lines(content)[k],
        )[0] == '>'),
        !starts_with(trim(lines(content)[k]), seq!['`', '`', '`']),
    ensures
        lead_in(lines(content), false, false) == Some(trim(lines(content)[k])),
{
    let ls = lines(content);
    assert(ls.subrange(0, ls.len() as int) =~= ls);
    lemma_lead_title(ls, 0, h);
    lemma_lead_scan(ls, h + 1, k);
}


/// How a `## ` section of a page is kept, from its heading `h` (its first
/// line, trimmed) and its body `b` (the rest, trimmed): a section with an
/// empty body gives nothing; a table of contents ("sommaire", "table des
/// matières", "table of contents", "contents", in any case) gives its body
/// as a `Sommaire` block without heading; a recurring navigation section
/// ("voir aussi", "see also", "retour au sommaire", "back to summary",
/// "prochaines étapes", "next steps") or the IA section gives nothing; any
/// other section gives one block under its heading.
pub proof fn law_section_kinds(part: Seq<char>)
    ensures
        ({
            let h = part_heading(part);
            let b = part_body(part);
            let l = lowercase(h);
            let toc = l == "sommaire"@ || l == "table des matières"@ || l == "table of contents"@ || l
                == "contents"@;
            let skip = l == "voir aussi"@ || l == "see also"@ || l == "retour au sommaire"@ || l
                == "back to summary"@ || l == "prochaines étapes"@ || l == "next steps"@ || l == "ia"@;
            &&& b.len() == 0 ==> part_blocks(part).len() == 0
            &&& b.len() > 0 && toc ==> part_blocks(part) == seq![(None::<Seq<char>>, b, "Sommaire"@)]
            &&& b.len() > 0 && skip ==> part_blocks(part).len() == 0
            &&& b.len() > 0 && !toc && !skip ==> part_blocks(part).len() == 1 && part_blocks(part)[0].0 == Some(h)
                && part_blocks(part)[0].1 == b
        }),
{
    reveal_strlit("sommaire");
    assert("sommaire"@.len() == 8 && "sommaire"@[0] == 's' && "sommaire"@[1] == 'o');
    reveal_strlit("table des matières");
    assert("table des matières"@.len() == 18 && "table des matières"@[0] == 't' && "table des matières"@[1] == 'a');
    reveal_strlit("table of contents");
    assert("table of contents"@.len() == 17 && "table of contents"@[0] == 't' && "table of contents"@[1] == 'a');
    reveal_strlit("contents");
    assert("contents"@.len() == 8 && "contents"@[0] == 'c' && "contents"@[1] == 'o');
    reveal_strlit("voir aussi");
    assert("voir aussi"@.len() == 10 && "voir aussi"@[0] == 'v' && "voir aussi"@[1] == 'o');
    reveal_strlit("see also");
    assert("see also"@.len() == 8 && "see also"@[0] == 's' && "see also"@[1] == 'e');
    reveal_strlit("retour au sommaire");
    assert("retour au sommaire"@.len() == 18 && "retour au sommaire"@[0] == 'r' && "retour au sommaire"@[1] == 'e');
    reveal_strlit("back to summary");
    assert("back to summary"@.len() == 15 && "back to summary"@[0] == 'b' && "back to summary"@[1] == 'a');
    reveal_strlit("prochaines étapes");
    assert("prochaines étapes"@.len() == 17 && "prochaines étapes"@[0] == 'p' && "prochaines étapes"@[1] == 'r');
    reveal_strlit("next steps");
    assert("next steps"@.len() == 10 && "next steps"@[0] == 'n' && "next steps"@[1] == 'e');
    reveal_strlit("ia");
    assert("ia"@.len() == 2 && "ia"@[0] == 'i' && "ia"@[1] == 'a');
}

/// The title of a page is its first line that starts with `# `, without its
/// `# ` marks and trimmed.
pub proof fn law_title_is_first_heading(content: Seq<char>, h: int)
    requires
        0 <= h < lines(content).len(),
        forall|m: int| 0 <= m < h ==> !starts_with(#[trigger] lines(content)[m], seq!['#', ' ']),
        starts_with(lines(content)[h], seq!['#', ' ']),
    ensures
        title_of(content) == trim(strip_prefixes(lines(content)[h], seq!['#', ' '])),
{
    let ls = lines(content);
    assert(h1_mark() =~= seq!['#', ' ']);
    lemma_title_from(ls, 0, h);
    assert(ls.subrange(0, ls.len() as int) =~= ls);
}

proof fn lemma_title_from(ls: Seq<Seq<char>>, j: int, h: int)
    requires
        0 <= j <= h < ls.len(),
        forall|m: int| j <= m < h ==> !starts_with(#[trigger] ls[m], seq!['#', ' ']),
        starts_with(ls[h], seq!['#', ' ']),
    ensures
        title_in(ls.subrange(j, ls.len() as int)) == Some(trim(strip_prefixes(ls[h], seq!['#', ' ']))),
    decreases h - j,
{
    let s = ls.subrange(j, ls.len() as int);
    assert(s[0] == ls[j]);
    assert(s.drop_first() =~= ls.subrange(j + 1, ls.len() as int));
    assert(h1_mark() =~= seq!['#', ' ']);
    if j < h {
        lemma_title_from(ls, j + 1, h);
    }
}


proof fn lemma_name_order_covers(keys: Seq<Seq<u8>>, n: int, k: int)
    requires
        0 <= k < n,
    ensures
        name_order_upto(keys, n).contains(k),
    decreases n,
{
    let s = name_order_upto(keys, n - 1);
    let p = order_insert_pos(keys, s, n - 1) as int;
    lemma_order_insert_pos_bound(keys, s, n - 1);
    let r = s.insert(p, n - 1);
    if k == n - 1 {
        assert(r[p] == n - 1);
    } else {
        lemma_name_order_covers(keys, n - 1, k);
        let w = choose|w: int| 0 <= w < s.len() && s[w] == k;
        if w < p {
            assert(r[w] == s[w]);
        } else {
            assert(r[w + 1] == s[w]);
        }
    }
}

proof fn lemma_sections_upto(entries: Seq<Named<LangEntry>>, ord: Seq<int>, n: int)
    requires
        0 <= n <= ord.len(),
    ensures
        forall|m: int|
            0 <= m < n && (#[trigger] entries[ord[m]]).entry.is_dir && is_section_name(entry_name(entries[ord[m]].entry))
                ==> sections_upto(entries, ord, n).contains(entry_name(entries[ord[m]].entry)),
        forall|q: int|
            0 <= q < sections_upto(entries, ord, n).len() ==> is_section_name(#[trigger] sections_upto(entries, ord, n)[q])
                && exists|m: int|
                0 <= m < n && (#[trigger] entries[ord[m]]).entry.is_dir && entry_name(entries[ord[m]].entry)
                    == sections_upto(entries, ord, n)[q],
    decreases n,
{
    if n > 0 {
        lemma_sections_upto(entries, ord, n - 1);
        let prev = sections_upto(entries, ord, n - 1);
        let all = sections_upto(entries, ord, n);
        let e = entries[ord[n - 1]].entry;
        assert forall|m: int|
            0 <= m < n && (#[trigger] entries[ord[m]]).entry.is_dir && is_section_name(entry_name(entries[ord[m]].entry))
                implies all.contains(entry_name(entries[ord[m]].entry)) by {
            if m == n - 1 {
                assert(all[all.len() - 1] == entry_name(e));
            } else {
                let w = choose|w: int| 0 <= w < prev.len() && prev[w] == entry_name(entries[ord[m]].entry);
                assert(all[w] == prev[w]);
            }
        }
        assert forall|q: int| 0 <= q < all.len() implies is_section_name(#[trigger] all[q]) && exists|m: int|
            0 <= m < n && (#[trigger] entries[ord[m]]).entry.is_dir && entry_name(entries[ord[m]].entry) == all[q] by {
            if q < prev.len() {
                assert(all[q] == prev[q]);
                assert(is_section_name(prev[q]));
                let m = choose|m: int|
                    0 <= m < n - 1 && (#[trigger] entries[ord[m]]).entry.is_dir && entry_name(entries[ord[m]].entry) == prev[q];
                assert(entries[ord[m]].entry.is_dir);
            } else {
                assert(entries[ord[n - 1]].entry.is_dir);
            }
        }
    }
}

/// The sections of a language folder are exactly its directories whose
/// name is not empty and is neither `cour` nor `ia`: each such directory is
/// listed, and everything listed is the name of such a directory.
pub proof fn law_sections_are_the_directories(entries: Seq<Named<LangEntry>>)
    ensures
        forall|k: int|
            0 <= k < entries.len() && (#[trigger] entries[k]).entry.is_dir && entry_name(entries[k].entry).len() > 0
                && entry_name(entries[k].entry) != "cour"@ && entry_name(entries[k].entry) != "ia"@
                ==> lang_sections(entries).contains(entry_name(entries[k].entry)),
        forall|q: int|
            0 <= q < lang_sections(entries).len() ==> {
                let s = #[trigger] lang_sections(entries)[q];
                &&& s.len() > 0 && s != "cour"@ && s != "ia"@
                &&& exists|k: int| 0 <= k < entries.len() && (#[trigger] entries[k]).entry.is_dir && entry_name(entries[k].entry) == s
            },
{
    let keys = keys_of(entries);
    let n = entries.len() as int;
    let ord = name_order(keys);
    assert(keys.len() == n);
    law_name_order_sorted(keys, n);
    lemma_sections_upto(entries, ord, n);
    assert forall|k: int|
        0 <= k < entries.len() && (#[trigger] entries[k]).entry.is_dir && entry_name(entries[k].entry).len() > 0
            && entry_name(entries[k].entry) != "cour"@ && entry_name(entries[k].entry) != "ia"@
            implies lang_sections(entries).contains(entry_name(entries[k].entry)) by {
        lemma_name_order_covers(keys, n, k);
        let m = choose|m: int| 0 <= m < ord.len() && ord[m] == k;
        assert(entries[ord[m]] == entries[k]);
    }
    assert forall|q: int| 0 <= q < lang_sections(entries).len() implies {
        let s = #[trigger] lang_sections(entries)[q];
        &&& s.len() > 0 && s != "cour"@ && s != "ia"@
        &&& exists|k: int| 0 <= k < entries.len() && (#[trigger] entries[k]).entry.is_dir && entry_name(entries[k].entry) == s
    } by {
        let s = lang_sections(entries)[q];
        assert(is_section_name(s));
        let m = choose|m: int| 0 <= m < n && (#[trigger] entries[ord[m]]).entry.is_dir && entry_name(entries[ord[m]].entry) == s;
        let k = ord[m];
        assert(0 <= k < n);
        assert(entries[k].entry.is_dir);
    }
}


/// The sort order of a file named `NN-…` is the number `NN`, and a file
/// whose name starts with a letter has order 99.
pub proof fn law_order_of_names(a: char, b: char, rest: Seq<char>, name: Seq<char>)
    ensures
        '0' <= a <= '9' && '0' <= b <= '9' ==> order_of(seq![a, b, '-'] + rest) == (a as int - '0' as int) * 10 + (
        b as int - '0' as int),
        name.len() > 0 && (('a' <= name[0] <= 'z') || ('A' <= name[0] <= 'Z')) ==> order_of(name) == 99,
{
    let s = seq![a, b, '-'] + rest;
    if '0' <= a <= '9' && '0' <= b <= '9' {
        assert(s[0] == a && s[1] == b && s[2] == '-');
        crate::text::lemma_find_char_at(s, '-', 2);
        let d = s.subrange(0, 2);
        assert(d =~= seq![a, b]);
        assert(d.drop_last() =~= seq![a]);
        assert(seq![a].drop_last() =~= Seq::<char>::empty());
        assert(crate::numbers::all_digits(d));
        assert(seq![a].last() == a);
        assert(crate::numbers::digits_value(Seq::<char>::empty()) == 0);
        assert(crate::numbers::digits_value(seq![a]) == a as int - '0' as int);
        assert(d.last() == b);
    }
    if name.len() > 0 && (('a' <= name[0] <= 'z') || ('A' <= name[0] <= 'Z')) {
        crate::text::lemma_find_char(name, '-');
        let i = find_char(name, '-');
        if i > 0 {
            let h = name.subrange(0, i as int);
            assert(h[0] == name[0]);
            assert(!crate::numbers::is_digit(h[0]));
        }
    }
}

} // verus!
