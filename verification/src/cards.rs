//! The cards of the changelog, known-issues and roadmap pages, the paging of
//! the changelog, and the grouping of form fields by type.

use vstd::prelude::*;
use crate::text::{append_chars, chars_of, string_of};

verus! {

/// One card: an optional subtitle, a title, a description and up to two links.
pub struct CardEntry {
    pub subtitle: Option<String>,
    pub title: String,
    pub description: String,
    pub link_url: Option<String>,
    pub link_label: Option<String>,
    pub link_url_2: Option<String>,
    pub link_label_2: Option<String>,
}

/// A titled group of cards.
pub struct CardSection {
    pub heading: String,
    pub heading_class: String,
    pub entries: Vec<CardEntry>,
}

/// The view of an optional string.
pub open spec fn opt_view(o: Option<String>) -> Option<Seq<char>> {
    match o {
        Some(s) => Some(s@),
        None => None,
    }
}

/// What a card shows.
pub struct CardEntryView {
    pub subtitle: Option<Seq<char>>,
    pub title: Seq<char>,
    pub description: Seq<char>,
    pub link_url: Option<Seq<char>>,
    pub link_label: Option<Seq<char>>,
    pub link_url_2: Option<Seq<char>>,
    pub link_label_2: Option<Seq<char>>,
}

/// What a group of cards shows.
pub struct CardSectionView {
    pub heading: Seq<char>,
    pub heading_class: Seq<char>,
    pub entries: Seq<CardEntryView>,
}

impl View for CardEntry {
    type V = CardEntryView;

    open spec fn view(&self) -> CardEntryView {
        CardEntryView {
            subtitle: opt_view(self.subtitle),
            title: self.title@,
            description: self.description@,
            link_url: opt_view(self.link_url),
            link_label: opt_view(self.link_label),
            link_url_2: opt_view(self.link_url_2),
            link_label_2: opt_view(self.link_label_2),
        }
    }
}

impl View for CardSection {
    type V = CardSectionView;

    open spec fn view(&self) -> CardSectionView {
        CardSectionView {
            heading: self.heading@,
            heading_class: self.heading_class@,
            entries: self.entries@.map_values(|e: CardEntry| e@),
        }
    }
}

/// The views of a list of card groups.
pub open spec fn sections_view(v: Seq<CardSection>) -> Seq<CardSectionView> {
    v.map_values(|s: CardSection| s@)
}

/// A copy of an optional string.
fn copy_opt(o: &Option<String>) -> (r: Option<String>)
    ensures
        opt_view(r) == opt_view(*o),
{
    match o {
        Some(s) => Some(s.clone()),
        None => None,
    }
}

// ───────────────────────────── changelog ─────────────────────────────

/// A changelog line: the release it belongs to and its card.
pub struct ChangelogRow {
    pub version: String,
    pub release_date: String,
    pub category: String,
    pub title: String,
    pub description: String,
    pub sort_order: i32,
}

/// The card of a changelog line: its category as subtitle, no link.
pub open spec fn changelog_card(r: ChangelogRow) -> CardEntryView {
    CardEntryView {
        subtitle: Some(r.category@),
        title: r.title@,
        description: r.description@,
        link_url: None,
        link_label: None,
        link_url_2: None,
        link_label_2: None,
    }
}

/// The versions among the first `n` lines, in the order of their first line.
pub open spec fn versions_upto(rows: Seq<ChangelogRow>, n: int) -> Seq<Seq<char>>
    decreases n,
{
    if n <= 0 {
        Seq::empty()
    } else {
        let d = versions_upto(rows, n - 1);
        if d.contains(rows[n - 1].version@) {
            d
        } else {
            d.push(rows[n - 1].version@)
        }
    }
}

/// The lines of version `v` among the first `n` lines, in order.
pub open spec fn rows_of_version(rows: Seq<ChangelogRow>, v: Seq<char>, n: int) -> Seq<ChangelogRow>
    decreases n,
{
    if n <= 0 {
        Seq::empty()
    } else {
        let d = rows_of_version(rows, v, n - 1);
        if rows[n - 1].version@ == v {
            d.push(rows[n - 1])
        } else {
            d
        }
    }
}

/// Where `x` goes in `s`: after the leading lines whose sort order is at most its own.
pub open spec fn insert_pos(s: Seq<ChangelogRow>, x: ChangelogRow) -> nat
    decreases s.len(),
{
    if s.len() == 0 || s[0].sort_order > x.sort_order {
        0
    } else {
        1 + insert_pos(s.drop_first(), x)
    }
}

/// `xs` sorted by sort order, lines of equal order kept in their order.
pub open spec fn sorted_by_order(xs: Seq<ChangelogRow>) -> Seq<ChangelogRow>
    decreases xs.len(),
{
    if xs.len() == 0 {
        Seq::empty()
    } else {
        let s = sorted_by_order(xs.drop_last());
        s.insert(insert_pos(s, xs.last()) as int, xs.last())
    }
}

/// The group of cards of version `v`: headed `v{version} — {date}` with the
/// release date of its first line, its cards in sort order.
pub open spec fn version_section(rows: Seq<ChangelogRow>, v: Seq<char>) -> CardSectionView {
    let mine = rows_of_version(rows, v, rows.len() as int);
    CardSectionView {
        heading: seq!['v'] + v + " — "@ + mine[0].release_date@,
        heading_class: "roadmap-active"@,
        entries: sorted_by_order(mine).map_values(|r: ChangelogRow| changelog_card(r)),
    }
}

/// The changelog: one group per version, the versions in the order in which
/// the lines (newest first) name them.
pub open spec fn changelog_sections(rows: Seq<ChangelogRow>) -> Seq<CardSectionView> {
    versions_upto(rows, rows.len() as int).map_values(|v: Seq<char>| version_section(rows, v))
}

pub proof fn lemma_insert_pos_bound(s: Seq<ChangelogRow>, x: ChangelogRow)
    ensures
        insert_pos(s, x) <= s.len(),
    decreases s.len(),
{
    if s.len() > 0 && s[0].sort_order <= x.sort_order {
        lemma_insert_pos_bound(s.drop_first(), x);
    }
}

/// A copy of a changelog line.
fn copy_row(r: &ChangelogRow) -> (c: ChangelogRow)
    ensures
        c == *r,
{
    ChangelogRow {
        version: r.version.clone(),
        release_date: r.release_date.clone(),
        category: r.category.clone(),
        title: r.title.clone(),
        description: r.description.clone(),
        sort_order: r.sort_order,
    }
}

/// Where `x` goes in `s`.
fn find_insert_pos(s: &Vec<ChangelogRow>, x: &ChangelogRow) -> (r: usize)
    ensures
        r == insert_pos(s@, *x),
{
    let mut k: usize = 0;
    assert(s@.subrange(0, s@.len() as int) =~= s@);
    while k < s.len() && s[k].sort_order <= x.sort_order
        invariant
            k <= s@.len(),
            insert_pos(s@, *x) == k + insert_pos(s@.subrange(k as int, s@.len() as int), *x),
        decreases s@.len() - k,
    {
        proof {
            let t = s@.subrange(k as int, s@.len() as int);
            assert(t.drop_first() =~= s@.subrange(k + 1, s@.len() as int));
        }
        k = k + 1;
    }
    proof {
        let t = s@.subrange(k as int, s@.len() as int);
        if k < s@.len() {
            assert(t[0] == s@[k as int]);
        }
    }
    k
}

/// The lines of version `v`, sorted by sort order.
fn sorted_rows_of_version(rows: &Vec<ChangelogRow>, v: &String) -> (r: Vec<ChangelogRow>)
    ensures
        r@ == sorted_by_order(rows_of_version(rows@, v@, rows@.len() as int)),
{
    let mut sorted: Vec<ChangelogRow> = Vec::new();
    let mut k: usize = 0;
    while k < rows.len()
        invariant
            k <= rows@.len(),
            sorted@ == sorted_by_order(rows_of_version(rows@, v@, k as int)),
        decreases rows@.len() - k,
    {
        if rows[k].version == *v {
            let x = copy_row(&rows[k]);
            let pos = find_insert_pos(&sorted, &x);
            proof {
                lemma_insert_pos_bound(sorted@, x);
                let mine = rows_of_version(rows@, v@, k + 1);
                assert(mine.drop_last() =~= rows_of_version(rows@, v@, k as int));
            }
            sorted.insert(pos, x);
        }
        k = k + 1;
    }
    sorted
}

/// Groups the changelog lines, given newest first, into one group of cards
/// per version: versions keep the order of their first line, and within a
/// version the cards follow their sort order.
pub fn group_changelog(rows: &Vec<ChangelogRow>) -> (r: Vec<CardSection>)
    ensures
        sections_view(r@) == changelog_sections(rows@),
{
    // The versions, in the order of their first line.
    let mut order: Vec<String> = Vec::new();
    let mut k: usize = 0;
    while k < rows.len()
        invariant
            k <= rows@.len(),
            order@.map_values(|s: String| s@) == versions_upto(rows@, k as int),
        decreases rows@.len() - k,
    {
        let mut seen = false;
        let mut m: usize = 0;
        while m < order.len()
            invariant
                k < rows@.len(),
                m <= order@.len(),
                seen == exists|q: int| 0 <= q < m && order@[q]@ == rows@[k as int].version@,
            decreases order@.len() - m,
        {
            if order[m] == rows[k].version {
                seen = true;
            }
            m = m + 1;
        }
        let ghost before = order@.map_values(|s: String| s@);
        proof {
            if seen {
                let q = choose|q: int| 0 <= q < m && order@[q]@ == rows@[k as int].version@;
                assert(before[q] == rows@[k as int].version@);
            } else {
                assert forall|q: int| 0 <= q < before.len() implies before[q] != rows@[k as int].version@ by {
                    assert(before[q] == order@[q]@);
                }
            }
        }
        if !seen {
            order.push(rows[k].version.clone());
            assert(order@.map_values(|s: String| s@) =~= before.push(rows@[k as int].version@));
        }
        k = k + 1;
    }
    let ghost vs = versions_upto(rows@, rows@.len() as int);
    let mut out: Vec<CardSection> = Vec::new();
    let mut i: usize = 0;
    while i < order.len()
        invariant
            i <= order@.len(),
            order@.map_values(|s: String| s@) == vs,
            vs == versions_upto(rows@, rows@.len() as int),
            sections_view(out@) == vs.subrange(0, i as int).map_values(|v: Seq<char>| version_section(rows@, v)),
        decreases order@.len() - i,
    {
        let v = &order[i];
        assert(order@.map_values(|s: String| s@)[i as int] == order@[i as int]@);
        assert(vs[i as int] == v@);
        assert(vs.contains(v@));
        let mine = sorted_rows_of_version(rows, v);
        proof {
            lemma_version_has_rows(rows@, v@, rows@.len() as int);
            lemma_sorted_len(rows_of_version(rows@, v@, rows@.len() as int));
        }
        let date = first_date_of_version(rows, v);
        let mut heading = vec!['v'];
        append_chars(&mut heading, chars_of(v.as_str()).as_slice());
        append_chars(&mut heading, chars_of(" — ").as_slice());
        append_chars(&mut heading, chars_of(date.as_str()).as_slice());
        let mut entries: Vec<CardEntry> = Vec::new();
        let mut m: usize = 0;
        while m < mine.len()
            invariant
                m <= mine@.len(),
                entries@.len() == m,
                entries@.map_values(|e: CardEntry| e@) == mine@.subrange(0, m as int).map_values(|r: ChangelogRow| changelog_card(r)),
            decreases mine@.len() - m,
        {
            let r = &mine[m];
            let ghost before = entries@.map_values(|e: CardEntry| e@);
            entries.push(CardEntry {
                subtitle: Some(r.category.clone()),
                title: r.title.clone(),
                description: r.description.clone(),
                link_url: None,
                link_label: None,
                link_url_2: None,
                link_label_2: None,
            });
            assert(entries@[m as int]@ == changelog_card(mine@[m as int]));
            assert(entries@.map_values(|e: CardEntry| e@) =~= before.push(changelog_card(mine@[m as int])));
            assert(mine@.subrange(0, m + 1).map_values(|r: ChangelogRow| changelog_card(r)) =~= mine@.subrange(0, m as int).map_values(|r: ChangelogRow| changelog_card(r)).push(changelog_card(mine@[m as int])));
            m = m + 1;
        }
        assert(mine@.subrange(0, mine@.len() as int) =~= mine@);
        let ghost before = sections_view(out@);
        let sec = CardSection {
            heading: string_of(heading.as_slice()),
            heading_class: "roadmap-active".to_owned(),
            entries,
        };
        assert(sec.heading@ =~= seq!['v'] + v@ + " — "@ + rows_of_version(rows@, v@, rows@.len() as int)[0].release_date@);
        assert(sec@ == version_section(rows@, v@));
        out.push(sec);
        assert(sections_view(out@) =~= before.push(version_section(rows@, v@)));
        assert(vs.subrange(0, i + 1).map_values(|v: Seq<char>| version_section(rows@, v)) =~= vs.subrange(0, i as int).map_values(|v: Seq<char>| version_section(rows@, v)).push(version_section(rows@, v@)));
        assert(sections_view(out@) =~= vs.subrange(0, i + 1).map_values(|v: Seq<char>| version_section(rows@, v)));
        i = i + 1;
    }
    assert(vs.subrange(0, vs.len() as int) =~= vs);
    out
}

/// The release date of the first line of version `v`.
fn first_date_of_version(rows: &Vec<ChangelogRow>, v: &String) -> (r: String)
    requires
        rows_of_version(rows@, v@, rows@.len() as int).len() > 0,
    ensures
        r@ == rows_of_version(rows@, v@, rows@.len() as int)[0].release_date@,
{
    let mut k: usize = 0;
    while k < rows.len()
        invariant
            k <= rows@.len(),
            rows_of_version(rows@, v@, k as int).len() == 0,
            rows_of_version(rows@, v@, rows@.len() as int).len() > 0,
        decreases rows@.len() - k,
    {
        if rows[k].version == *v {
            proof {
                lemma_rows_prefix(rows@, v@, k + 1, rows@.len() as int);
            }
            return rows[k].release_date.clone();
        }
        k = k + 1;
    }
    proof {
        assert(k == rows@.len());
    }
    rows[0].release_date.clone()
}

/// The lines of a version among the first `n` lines are a prefix of those among the first `m`.
pub proof fn lemma_rows_prefix(rows: Seq<ChangelogRow>, v: Seq<char>, n: int, m: int)
    requires
        0 <= n <= m,
    ensures
        rows_of_version(rows, v, n).len() <= rows_of_version(rows, v, m).len(),
        forall|q: int| 0 <= q < rows_of_version(rows, v, n).len() ==> rows_of_version(rows, v, m)[q] == rows_of_version(rows, v, n)[q],
    decreases m - n,
{
    if n < m {
        lemma_rows_prefix(rows, v, n, m - 1);
    }
}

/// A version that a line names has at least one line.
pub proof fn lemma_version_has_rows(rows: Seq<ChangelogRow>, v: Seq<char>, n: int)
    requires
        versions_upto(rows, n).contains(v),
    ensures
        rows_of_version(rows, v, n).len() > 0,
    decreases n,
{
    if n > 0 {
        let d = versions_upto(rows, n - 1);
        if d.contains(v) {
            lemma_version_has_rows(rows, v, n - 1);
            lemma_rows_prefix(rows, v, n - 1, n);
        } else {
            assert(rows[n - 1].version@ == v);
        }
    }
}

/// Sorting keeps the number of lines.
pub proof fn lemma_sorted_len(xs: Seq<ChangelogRow>)
    ensures
        sorted_by_order(xs).len() == xs.len(),
    decreases xs.len(),
{
    if xs.len() > 0 {
        lemma_sorted_len(xs.drop_last());
        lemma_insert_pos_bound(sorted_by_order(xs.drop_last()), xs.last());
    }
}


// ───────────────────────────── paging ─────────────────────────────

/// The page shown: the requested one, brought between 1 and the number of
/// pages (at least 1).
pub open spec fn page_number(page: int, total: int) -> int {
    let lo = if page < 1 {
        1
    } else {
        page
    };
    let hi = if total < 1 {
        1
    } else {
        total
    };
    if lo < hi {
        lo
    } else {
        hi
    }
}

/// One release per page: the sections of the page shown, the page number
/// and the number of pages.
pub fn changelog_page<T>(all: Vec<T>, page: usize) -> (r: (Vec<T>, usize, usize))
    ensures
        r.1 == page_number(page as int, all@.len() as int),
        r.2 == all@.len(),
        r.0@ == all@.subrange(r.1 - 1, if r.1 < all@.len() { r.1 as int } else { all@.len() as int }),
{
    let mut all = all;
    let total = all.len();
    let lo = if page < 1 {
        1
    } else {
        page
    };
    let hi = if total < 1 {
        1
    } else {
        total
    };
    let p = if lo < hi {
        lo
    } else {
        hi
    };
    let ghost orig = all@;
    let mut shown: Vec<T> = Vec::new();
    if p - 1 < total {
        let x = all.remove(p - 1);
        shown.push(x);
        assert(shown@ =~= orig.subrange(p - 1, p as int));
    } else {
        assert(shown@ =~= orig.subrange(p - 1, total as int));
    }
    (shown, p, total)
}

// ───────────────────────────── known issues ─────────────────────────────

/// A known issue: the release it affects and its card.
pub struct IssueRow {
    pub version: String,
    pub issue_type: String,
    pub title: String,
    pub description: String,
}

/// The card of a known issue: its type as subtitle, no link.
pub open spec fn issue_card(r: IssueRow) -> CardEntryView {
    CardEntryView {
        subtitle: Some(r.issue_type@),
        title: r.title@,
        description: r.description@,
        link_url: None,
        link_label: None,
        link_url_2: None,
        link_label_2: None,
    }
}

/// The groups of the first `n` issues: consecutive issues of the same
/// release share a group headed `v{version}`.
pub open spec fn issue_sections(rows: Seq<IssueRow>, n: int) -> Seq<CardSectionView>
    decreases n,
{
    if n <= 0 {
        Seq::empty()
    } else {
        let prev = issue_sections(rows, n - 1);
        let h = seq!['v'] + rows[n - 1].version@;
        let e = issue_card(rows[n - 1]);
        if prev.len() > 0 && prev.last().heading == h {
            prev.update(
                prev.len() - 1,
                CardSectionView {
                    heading: prev.last().heading,
                    heading_class: prev.last().heading_class,
                    entries: prev.last().entries.push(e),
                },
            )
        } else {
            prev.push(CardSectionView { heading: h, heading_class: "roadmap-active"@, entries: seq![e] })
        }
    }
}

/// Groups the known issues, given by release then sort order, into one
/// group per run of issues of the same release.
pub fn group_known_issues(rows: &Vec<IssueRow>) -> (r: Vec<CardSection>)
    ensures
        sections_view(r@) == issue_sections(rows@, rows@.len() as int),
{
    let mut sections: Vec<CardSection> = Vec::new();
    let mut k: usize = 0;
    while k < rows.len()
        invariant
            k <= rows@.len(),
            sections_view(sections@) == issue_sections(rows@, k as int),
        decreases rows@.len() - k,
    {
        let r = &rows[k];
        let mut h = vec!['v'];
        append_chars(&mut h, chars_of(r.version.as_str()).as_slice());
        let heading = string_of(h.as_slice());
        assert(heading@ =~= seq!['v'] + rows@[k as int].version@);
        let entry = CardEntry {
            subtitle: Some(r.issue_type.clone()),
            title: r.title.clone(),
            description: r.description.clone(),
            link_url: None,
            link_label: None,
            link_url_2: None,
            link_label_2: None,
        };
        assert(entry@ == issue_card(rows@[k as int]));
        let ghost prev = sections_view(sections@);
        let n = sections.len();
        if n > 0 && sections[n - 1].heading == heading {
            let ghost all_before = sections@;
            let mut last = sections.pop().unwrap();
            assert(last == all_before[n - 1]);
            assert(prev.last() == last@);
            let ghost old_entries = last.entries@.map_values(|e: CardEntry| e@);
            last.entries.push(entry);
            assert(last.entries@.map_values(|e: CardEntry| e@) =~= old_entries.push(issue_card(rows@[k as int])));
            let ghost new_last = last@;
            sections.push(last);
            assert(sections@ =~= all_before.update(n - 1, sections@[n - 1]));
            assert(sections_view(sections@) =~= prev.update(n - 1, new_last));
            assert(sections_view(sections@) =~= issue_sections(rows@, k + 1));
        } else {
            let mut entries: Vec<CardEntry> = Vec::new();
            entries.push(entry);
            let sec = CardSection { heading, heading_class: "roadmap-active".to_owned(), entries };
            assert(sec.entries@.map_values(|e: CardEntry| e@) =~= seq![issue_card(rows@[k as int])]);
            sections.push(sec);
            assert(sections_view(sections@) =~= issue_sections(rows@, k + 1));
        }
        k = k + 1;
    }
    sections
}

// ───────────────────────────── roadmap ─────────────────────────────

/// Where a roadmap item stands.
#[derive(Clone, Copy, Debug, PartialEq, Eq, Structural)]
pub enum RoadmapStatus {
    Active,
    Planned,
    Future,
}

/// A roadmap item.
pub struct RoadmapRow {
    pub status: RoadmapStatus,
    pub title: String,
    pub description: String,
    pub link_url: Option<String>,
    pub link_label: Option<String>,
    pub link_url_2: Option<String>,
    pub link_label_2: Option<String>,
}

/// The card of a roadmap item: no subtitle, its links.
pub open spec fn roadmap_card(r: RoadmapRow) -> CardEntryView {
    CardEntryView {
        subtitle: None,
        title: r.title@,
        description: r.description@,
        link_url: opt_view(r.link_url),
        link_label: opt_view(r.link_label),
        link_url_2: opt_view(r.link_url_2),
        link_label_2: opt_view(r.link_label_2),
    }
}

/// The cards of the first `n` items of status `st`, in order.
pub open spec fn cards_with_status(rows: Seq<RoadmapRow>, st: RoadmapStatus, n: int) -> Seq<CardEntryView>
    decreases n,
{
    if n <= 0 {
        Seq::empty()
    } else {
        let prev = cards_with_status(rows, st, n - 1);
        if rows[n - 1].status == st {
            prev.push(roadmap_card(rows[n - 1]))
        } else {
            prev
        }
    }
}

/// The heading of the group of a status.
pub open spec fn status_heading(st: RoadmapStatus) -> Seq<char> {
    match st {
        RoadmapStatus::Active => "🔧 In progress"@,
        RoadmapStatus::Planned => "📋 Planned"@,
        RoadmapStatus::Future => "🔭 Future"@,
    }
}

/// The style class of the group of a status.
pub open spec fn status_class(st: RoadmapStatus) -> Seq<char> {
    match st {
        RoadmapStatus::Active => "roadmap-active"@,
        RoadmapStatus::Planned => "roadmap-planned"@,
        RoadmapStatus::Future => "roadmap-future"@,
    }
}

/// The group of a status, or nothing when no item has it.
pub open spec fn status_section(rows: Seq<RoadmapRow>, st: RoadmapStatus) -> Seq<CardSectionView> {
    let cards = cards_with_status(rows, st, rows.len() as int);
    if cards.len() == 0 {
        Seq::empty()
    } else {
        seq![CardSectionView { heading: status_heading(st), heading_class: status_class(st), entries: cards }]
    }
}

/// The roadmap: the items in progress, then the planned ones, then the
/// future ones, each group in sort order and left out when empty.
pub open spec fn roadmap_sections(rows: Seq<RoadmapRow>) -> Seq<CardSectionView> {
    status_section(rows, RoadmapStatus::Active) + status_section(rows, RoadmapStatus::Planned)
        + status_section(rows, RoadmapStatus::Future)
}

/// The group of one status.
fn status_group(rows: &Vec<RoadmapRow>, st: RoadmapStatus) -> (r: Vec<CardSection>)
    ensures
        sections_view(r@) == status_section(rows@, st),
{
    let mut entries: Vec<CardEntry> = Vec::new();
    let mut k: usize = 0;
    while k < rows.len()
        invariant
            k <= rows@.len(),
            entries@.map_values(|e: CardEntry| e@) == cards_with_status(rows@, st, k as int),
        decreases rows@.len() - k,
    {
        let r = &rows[k];
        if r.status == st {
            let ghost before = entries@.map_values(|e: CardEntry| e@);
            entries.push(CardEntry {
                subtitle: None,
                title: r.title.clone(),
                description: r.description.clone(),
                link_url: copy_opt(&r.link_url),
                link_label: copy_opt(&r.link_label),
                link_url_2: copy_opt(&r.link_url_2),
                link_label_2: copy_opt(&r.link_label_2),
            });
            assert(entries@.map_values(|e: CardEntry| e@) =~= before.push(roadmap_card(rows@[k as int])));
        }
        k = k + 1;
    }
    let mut out: Vec<CardSection> = Vec::new();
    if entries.len() > 0 {
        let (heading, class) = match st {
            RoadmapStatus::Active => ("🔧 In progress".to_owned(), "roadmap-active".to_owned()),
            RoadmapStatus::Planned => ("📋 Planned".to_owned(), "roadmap-planned".to_owned()),
            RoadmapStatus::Future => ("🔭 Future".to_owned(), "roadmap-future".to_owned()),
        };
        out.push(CardSection { heading, heading_class: class, entries });
    }
    assert(sections_view(out@) =~= status_section(rows@, st));
    out
}

/// Groups the roadmap items, given in sort order, by status.
pub fn group_roadmap(rows: &Vec<RoadmapRow>) -> (r: Vec<CardSection>)
    ensures
        sections_view(r@) == roadmap_sections(rows@),
{
    let mut out = status_group(rows, RoadmapStatus::Active);
    let mut planned = status_group(rows, RoadmapStatus::Planned);
    let mut future = status_group(rows, RoadmapStatus::Future);
    let ghost a = out@;
    let ghost b = planned@;
    let ghost c = future@;
    out.append(&mut planned);
    out.append(&mut future);
    assert(sections_view(out@) =~= sections_view(a) + sections_view(b) + sections_view(c));
    out
}

// ───────────────────────────── form fields ─────────────────────────────

/// Consecutive form fields of one type.
pub struct FieldGroup<F> {
    pub field_type: String,
    pub fields: Vec<F>,
}

/// The groups of the first `n` fields: consecutive fields of the same type
/// share a group.
pub open spec fn field_groups<F>(items: Seq<(String, F)>, n: int) -> Seq<(Seq<char>, Seq<F>)>
    decreases n,
{
    if n <= 0 {
        Seq::empty()
    } else {
        let prev = field_groups(items, n - 1);
        let t = items[n - 1].0@;
        let f = items[n - 1].1;
        if prev.len() > 0 && prev.last().0 == t {
            prev.update(prev.len() - 1, (t, prev.last().1.push(f)))
        } else {
            prev.push((t, seq![f]))
        }
    }
}

/// The views of a list of field groups.
pub open spec fn groups_view<F>(v: Seq<FieldGroup<F>>) -> Seq<(Seq<char>, Seq<F>)> {
    v.map_values(|g: FieldGroup<F>| (g.field_type@, g.fields@))
}

/// Groups form fields, each given with its type and in display order, into
/// runs of the same type.
pub fn group_fields<F>(items: Vec<(String, F)>) -> (r: Vec<FieldGroup<F>>)
    ensures
        groups_view(r@) == field_groups(items@, items@.len() as int),
{
    let ghost orig = items@;
    let mut items = items;
    let mut groups: Vec<FieldGroup<F>> = Vec::new();
    let mut k: usize = 0;
    assert(orig.subrange(0, orig.len() as int) =~= orig);
    let len0 = items.len();
    assert(orig.len() == len0);
    while items.len() > 0
        invariant
            orig.len() <= usize::MAX,
            k <= orig.len(),
            items@ == orig.subrange(k as int, orig.len() as int),
            groups_view(groups@) == field_groups(orig, k as int),
        decreases items@.len(),
    {
        assert(k < orig.len());
        let (t, f) = items.remove(0);
        assert(items@ =~= orig.subrange(k + 1, orig.len() as int));
        let ghost prev = groups_view(groups@);
        let n = groups.len();
        if n > 0 && groups[n - 1].field_type == t {
            let mut last = groups.pop().unwrap();
            last.fields.push(f);
            groups.push(last);
            assert(groups_view(groups@) =~= field_groups(orig, k + 1));
        } else {
            let mut fields: Vec<F> = Vec::new();
            fields.push(f);
            assert(fields@ =~= seq![f]);
            groups.push(FieldGroup { field_type: t, fields });
            assert(groups_view(groups@) =~= field_groups(orig, k + 1));
        }
        k = k + 1;
    }
    groups
}


/// Lines in non-decreasing sort order.
pub open spec fn in_order(s: Seq<ChangelogRow>) -> bool {
    forall|i: int, j: int| 0 <= i < j < s.len() ==> s[i].sort_order <= s[j].sort_order
}

proof fn lemma_insert_pos_split(s: Seq<ChangelogRow>, x: ChangelogRow)
    ensures
        forall|k: int| 0 <= k < insert_pos(s, x) ==> (#[trigger] s[k]).sort_order <= x.sort_order,
        insert_pos(s, x) < s.len() ==> s[insert_pos(s, x) as int].sort_order > x.sort_order,
    decreases s.len(),
{
    if s.len() > 0 && s[0].sort_order <= x.sort_order {
        lemma_insert_pos_split(s.drop_first(), x);
        lemma_insert_pos_bound(s.drop_first(), x);
        assert forall|k: int| 0 <= k < insert_pos(s, x) implies (#[trigger] s[k]).sort_order <= x.sort_order by {
            if k > 0 {
                assert(s[k] == s.drop_first()[k - 1]);
            }
        }
    }
}

/// The cards of each release come in sort order: sorting by insertion
/// leaves the lines in non-decreasing sort order.
pub proof fn law_sorted_by_order(xs: Seq<ChangelogRow>)
    ensures
        in_order(sorted_by_order(xs)),
        sorted_by_order(xs).len() == xs.len(),
    decreases xs.len(),
{
    lemma_sorted_len(xs);
    if xs.len() > 0 {
        law_sorted_by_order(xs.drop_last());
        let s = sorted_by_order(xs.drop_last());
        let x = xs.last();
        let p = insert_pos(s, x) as int;
        lemma_insert_pos_bound(s, x);
        lemma_insert_pos_split(s, x);
        let r = s.insert(p, x);
        assert forall|i: int, j: int| 0 <= i < j < r.len() implies r[i].sort_order <= r[j].sort_order by {
            if j < p {
                assert(r[i] == s[i] && r[j] == s[j]);
            } else if j == p {
                assert(r[i] == s[i]);
            } else if i < p {
                assert(r[i] == s[i] && r[j] == s[j - 1]);
                assert(s[i].sort_order <= x.sort_order);
                assert(s[p].sort_order > x.sort_order);
                assert(s[p].sort_order <= s[j - 1].sort_order);
            } else if i == p {
                assert(r[j] == s[j - 1]);
                assert(s[p].sort_order <= s[j - 1].sort_order);
            } else {
                assert(r[i] == s[i - 1] && r[j] == s[j - 1]);
            }
        }
    }
}

/// The changelog has one group per release: no release is listed twice, and
/// the release of every line is listed.
pub proof fn law_changelog_one_group_per_release(rows: Seq<ChangelogRow>, n: int)
    requires
        0 <= n <= rows.len(),
    ensures
        forall|i: int, j: int|
            0 <= i < j < versions_upto(rows, n).len() ==> versions_upto(rows, n)[i] != versions_upto(rows, n)[j],
        forall|k: int| 0 <= k < n ==> versions_upto(rows, n).contains(#[trigger] rows[k].version@),
    decreases n,
{
    if n > 0 {
        law_changelog_one_group_per_release(rows, n - 1);
        let d = versions_upto(rows, n - 1);
        let v = rows[n - 1].version@;
        if !d.contains(v) {
            let e = d.push(v);
            assert forall|i: int, j: int| 0 <= i < j < e.len() implies e[i] != e[j] by {
                if j == e.len() - 1 {
                    assert(e[i] == d[i]);
                }
            }
            assert forall|k: int| 0 <= k < n implies e.contains(#[trigger] rows[k].version@) by {
                if k < n - 1 {
                    let w = choose|w: int| 0 <= w < d.len() && d[w] == rows[k].version@;
                    assert(e[w] == d[w]);
                } else {
                    assert(e[e.len() - 1] == v);
                }
            }
        }
    }
}

/// Sorting the lines of a release by their order keeps each line: the
/// sorted lines are the same lines, each as often.
pub proof fn law_sorted_keeps_rows(xs: Seq<ChangelogRow>)
    ensures
        sorted_by_order(xs).to_multiset() == xs.to_multiset(),
    decreases xs.len(),
{
    broadcast use vstd::seq_lib::group_to_multiset_ensures;
    if xs.len() > 0 {
        law_sorted_keeps_rows(xs.drop_last());
        let s = sorted_by_order(xs.drop_last());
        let x = xs.last();
        let p = insert_pos(s, x) as int;
        lemma_insert_pos_bound(s, x);
        vstd::seq_lib::to_multiset_insert(s, p, x);
        vstd::seq_lib::to_multiset_build(xs.drop_last(), x);
        assert(xs.drop_last().push(x) =~= xs);
    }
}

/// Consecutive groups of cards never share a type.
pub proof fn law_field_groups_alternate<F>(items: Seq<(String, F)>, n: int)
    ensures
        forall|k: int| 0 <= k < field_groups(items, n).len() - 1 ==> (#[trigger] field_groups(items, n)[k]).0 != field_groups(items, n)[k + 1].0,
    decreases n,
{
    if n > 0 {
        law_field_groups_alternate(items, n - 1);
        let prev = field_groups(items, n - 1);
        let all = field_groups(items, n);
        assert forall|k: int| 0 <= k < all.len() - 1 implies (#[trigger] all[k]).0 != all[k + 1].0 by {
            if k + 1 < prev.len() {
                if prev.len() > 0 && prev.last().0 == items[n - 1].0@ {
                    assert(all[k].0 == prev[k].0);
                    assert(all[k + 1].0 == prev[k + 1].0);
                } else {
                    assert(all[k] == prev[k] && all[k + 1] == prev[k + 1]);
                }
            } else {
                if prev.len() > 0 && prev.last().0 == items[n - 1].0@ {
                } else {
                    assert(all[k] == prev[k]);
                }
            }
        }
    }
}

/// Consecutive groups of known issues never share a release.
pub proof fn law_issue_sections_alternate(rows: Seq<IssueRow>, n: int)
    ensures
        forall|k: int| 0 <= k < issue_sections(rows, n).len() - 1 ==> (#[trigger] issue_sections(rows, n)[k]).heading != issue_sections(rows, n)[k + 1].heading,
    decreases n,
{
    if n > 0 {
        law_issue_sections_alternate(rows, n - 1);
        let prev = issue_sections(rows, n - 1);
        let all = issue_sections(rows, n);
        let h = seq!['v'] + rows[n - 1].version@;
        assert forall|k: int| 0 <= k < all.len() - 1 implies (#[trigger] all[k]).heading != all[k + 1].heading by {
            if k + 1 < prev.len() {
                if prev.len() > 0 && prev.last().heading == h {
                    assert(all[k].heading == prev[k].heading);
                    assert(all[k + 1].heading == prev[k + 1].heading);
                } else {
                    assert(all[k] == prev[k] && all[k + 1] == prev[k + 1]);
                }
            } else {
                if prev.len() > 0 && prev.last().heading == h {
                } else {
                    assert(all[k] == prev[k]);
                }
            }
        }
    }
}

/// The page shown always exists: it lies between 1 and the number of pages,
/// an empty changelog having one empty page.
pub proof fn law_page_in_range(page: int, total: int)
    ensures
        1 <= page_number(page, total),
        page_number(page, total) <= if total < 1 { 1 } else { total },
        1 <= page <= total ==> page_number(page, total) == page,
{
}

} // verus!
