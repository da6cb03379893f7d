//! Cards: Markdown files whose YAML frontmatter, between `---` markers,
//! holds an entity, secret or beat, and whose body is free text.
use vstd::prelude::*;
use vstd::string::StrSliceExecFns;

use crate::text::{Chars, chars_of, contains_str, ltrim, owned, push_str, starts, str_eq, string_from, trim, trim_bounds, views, whitespace};

verus! {

broadcast use vstd::seq_lib::group_seq_properties;

// ── Frontmatter ──────────────────────────────────────────────────

/// The first position at or after `i` where `p` occurs in `s`.
pub open spec fn find_from(s: Chars, p: Chars, i: int) -> Option<int>
    decreases s.len() - i,
{
    if i < 0 || i >= s.len() || i + p.len() > s.len() {
        None
    } else if s.subrange(i, i + p.len()) == p {
        Some(i)
    } else {
        find_from(s, p, i + 1)
    }
}

pub open spec fn dashes() -> Chars {
    seq!['-', '-', '-']
}

pub open spec fn closing() -> Chars {
    seq!['\n', '-', '-', '-']
}

/// `s` without one leading newline, if it has one.
pub open spec fn strip_newline(s: Chars) -> Chars {
    if s.len() > 0 && s[0] == '\n' {
        s.skip(1)
    } else {
        s
    }
}

/// The frontmatter and body of a card: after leading whitespace, a `---`
/// line opens the frontmatter and the first `\n---` closes it; one newline
/// after each marker is dropped.
pub open spec fn frontmatter_spec(raw: Chars) -> Option<(Chars, Chars)> {
    let t = ltrim(raw);
    if !starts(t, dashes()) {
        None
    } else {
        found_split(strip_newline(t.skip(3)))
    }
}

/// What follows the opening marker, split at the closing one.
pub open spec fn found_split(a: Chars) -> Option<(Chars, Chars)> {
    match find_from(a, closing(), 0) {
        None => None,
        Some(p) => Some((a.take(p), strip_newline(a.skip(p + 4)))),
    }
}

fn closing_at(v: &Vec<char>, p: usize) -> (r: bool)
    requires
        p + 4 <= v.len(),
    ensures
        r == (v@.subrange(p as int, p + 4) == closing()),
{
    let r = v[p] == '\n' && v[p + 1] == '-' && v[p + 2] == '-' && v[p + 3] == '-';
    proof {
        let w = v@.subrange(p as int, p + 4);
        if r {
            assert(w =~= closing());
        }
        if w == closing() {
            assert(w[0] == closing()[0] && w[1] == closing()[1] && w[2] == closing()[2] && w[3] == closing()[3]);
        }
    }
    r
}

/// Split a raw Markdown file into (YAML frontmatter, body); `None` when it
/// has no frontmatter.
pub fn split_frontmatter(raw: &str) -> (r: Option<(&str, &str)>)
    ensures
        match r {
            Some((y, b)) => frontmatter_spec(raw@) == Some((y@, b@)),
            None => frontmatter_spec(raw@) is None,
        },
{
    let v = chars_of(raw);
    let n = v.len();
    let mut lo: usize = 0;
    assert(v@.subrange(0, n as int) == v@);
    while lo < n && whitespace(v[lo])
        invariant
            lo <= n == v@.len(),
            v@ == raw@,
            ltrim(raw@) == ltrim(v@.subrange(lo as int, n as int)),
        decreases n - lo,
    {
        assert(v@.subrange(lo as int, n as int).drop_first() == v@.subrange(lo + 1, n as int));
        lo += 1;
    }
    let ghost t = v@.subrange(lo as int, n as int);
    assert(ltrim(raw@) == t);
    if !(n - lo >= 3 && v[lo] == '-' && v[lo + 1] == '-' && v[lo + 2] == '-') {
        proof {
            if starts(t, dashes()) {
                assert(t.take(3)[0] == '-' && t.take(3)[1] == '-' && t.take(3)[2] == '-');
            }
        }
        return None;
    }
    assert(t.take(3) =~= dashes());
    let mut a: usize = lo + 3;
    if a < n && v[a] == '\n' {
        a += 1;
    }
    let ghost av = v@.subrange(a as int, n as int);
    assert(av == strip_newline(t.skip(3)));
    assert(frontmatter_spec(raw@) == found_split(av));
    // Search for the closing marker.
    let mut p: usize = a;
    while p < n && n - p >= 4
        invariant
            a <= p <= n,
            n == v@.len(),
            v@ == raw@,
            av == v@.subrange(a as int, n as int),
            find_from(av, closing(), 0) == find_from(av, closing(), p - a),
            frontmatter_spec(raw@) == found_split(av),
        decreases n - p,
    {
        let hit = closing_at(&v, p);
        assert(av.subrange(p - a, p - a + 4) == v@.subrange(p as int, p + 4));
        if hit {
            assert(find_from(av, closing(), p - a) == Some(p - a));
            let yaml = raw.substring_char(a, p);
            let mut b: usize = p + 4;
            if b < n && v[b] == '\n' {
                b += 1;
            }
            let body = raw.substring_char(b, n);
            assert(yaml@ =~= av.take(p - a));
            assert(body@ =~= strip_newline(av.skip(p - a + 4)));
            return Some((yaml, body));
        }
        p += 1;
    }
    None
}

// ── Perspective drafts ───────────────────────────────────────────

/// The three categories of perspective drafts.
#[derive(Debug, Clone, Copy, PartialEq, Eq, Structural)]
pub enum PovCategory {
    /// Character subjective perspective
    Pov,
    /// Past/future timeline perspective
    Timeline,
    /// Bystander/object/external perspective
    Outsider,
}

pub open spec fn dir_name_spec(c: PovCategory) -> Chars {
    match c {
        PovCategory::Pov => "pov"@,
        PovCategory::Timeline => "timeline"@,
        PovCategory::Outsider => "outsider"@,
    }
}

pub open spec fn category_label(c: PovCategory) -> Chars {
    match c {
        PovCategory::Pov => "角色视角"@,
        PovCategory::Timeline => "时间轴视角"@,
        PovCategory::Outsider => "路人视角"@,
    }
}

impl PovCategory {
    /// The directory that holds drafts of this category.
    pub fn dir_name(&self) -> (r: &'static str)
        ensures
            r@ == dir_name_spec(*self),
    {
        match self {
            PovCategory::Pov => "pov",
            PovCategory::Timeline => "timeline",
            PovCategory::Outsider => "outsider",
        }
    }

    pub fn label(&self) -> (r: &'static str)
        ensures
            r@ == category_label(*self),
    {
        match self {
            PovCategory::Pov => "角色视角",
            PovCategory::Timeline => "时间轴视角",
            PovCategory::Outsider => "路人视角",
        }
    }

    /// Every category, in directory scan order.
    pub fn all() -> (r: [PovCategory; 3])
        ensures
            r@ == seq![PovCategory::Pov, PovCategory::Timeline, PovCategory::Outsider],
    {
        [PovCategory::Pov, PovCategory::Timeline, PovCategory::Outsider]
    }
}

/// A draft found in a content node's perspective directories.
#[derive(Debug)]
pub struct PovDraft {
    /// Filename stem (e.g. "chen_yu", "lao_zheng_past", "street")
    pub name: String,
    pub category: PovCategory,
    /// Raw text content of the draft
    pub text: String,
}

/// Names of drafts per category.
#[derive(Debug)]
pub struct DraftSummary {
    pub pov: Vec<String>,
    pub timeline: Vec<String>,
    pub outsider: Vec<String>,
}

impl Default for DraftSummary {
    fn default() -> (r: DraftSummary)
        ensures
            r.pov@.len() == 0 && r.timeline@.len() == 0 && r.outsider@.len() == 0,
    {
        DraftSummary { pov: Vec::new(), timeline: Vec::new(), outsider: Vec::new() }
    }
}

/// The names of the drafts of one category, in their order.
pub open spec fn names_in(drafts: Seq<PovDraft>, c: PovCategory) -> Seq<Chars>
    decreases drafts.len(),
{
    if drafts.len() == 0 {
        Seq::empty()
    } else {
        let rest = names_in(drafts.drop_last(), c);
        if drafts.last().category == c {
            rest.push(drafts.last().name@)
        } else {
            rest
        }
    }
}

impl DraftSummary {
    /// Number of drafts over all categories.
    pub fn total(&self) -> (r: usize)
        requires
            self.pov@.len() + self.timeline@.len() + self.outsider@.len() <= usize::MAX,
        ensures
            r == self.pov@.len() + self.timeline@.len() + self.outsider@.len(),
    {
        self.pov.len() + self.timeline.len() + self.outsider.len()
    }

    /// Whether every category has at least one draft.
    pub fn has_all_categories(&self) -> (r: bool)
        ensures
            r == (self.pov@.len() > 0 && self.timeline@.len() > 0 && self.outsider@.len() > 0),
    {
        !self.pov.is_empty() && !self.timeline.is_empty() && !self.outsider.is_empty()
    }

}

/// The names of loaded drafts per category, in their order.
pub fn draft_summary(drafts: Vec<PovDraft>) -> (r: DraftSummary)
    ensures
        views(r.pov@) == names_in(drafts@, PovCategory::Pov),
        views(r.timeline@) == names_in(drafts@, PovCategory::Timeline),
        views(r.outsider@) == names_in(drafts@, PovCategory::Outsider),
{
    let ghost all = drafts@;
    let mut s = DraftSummary { pov: Vec::new(), timeline: Vec::new(), outsider: Vec::new() };
    let mut i: usize = 0;
    while i < drafts.len()
        invariant
            i <= drafts@.len(),
            all == drafts@,
            views(s.pov@) == names_in(all.take(i as int), PovCategory::Pov),
            views(s.timeline@) == names_in(all.take(i as int), PovCategory::Timeline),
            views(s.outsider@) == names_in(all.take(i as int), PovCategory::Outsider),
        decreases drafts@.len() - i,
    {
        let d = &drafts[i];
        proof {
            assert(all.take(i + 1).drop_last() == all.take(i as int));
            assert(all.take(i + 1).last() == *d);
        }
        let name = d.name.clone();
        match d.category {
            PovCategory::Pov => {
                let ghost prev = s.pov@;
                s.pov.push(name);
                assert(views(s.pov@) =~= views(prev).push(d.name@));
            },
            PovCategory::Timeline => {
                let ghost prev = s.timeline@;
                s.timeline.push(name);
                assert(views(s.timeline@) =~= views(prev).push(d.name@));
            },
            PovCategory::Outsider => {
                let ghost prev = s.outsider@;
                s.outsider.push(name);
                assert(views(s.outsider@) =~= views(prev).push(d.name@));
            },
        }
        i += 1;
    }
    assert(all.take(drafts@.len() as int) == all);
    s
}

// ── Progress ─────────────────────────────────────────────────────

/// Writing progress for a content node, recorded as commands run.
#[derive(Debug)]
pub struct Progress {
    /// Entity ids for which the context was looked at, each once.
    pub context_checked: Vec<String>,
    pub suggest_ran: bool,
    pub sibling_read: bool,
    pub parent_read: bool,
    pub drafts: DraftSummary,
}

/// Progress with nothing recorded.
pub open spec fn is_fresh(p: Progress) -> bool {
    &&& p.context_checked@.len() == 0
    &&& !p.suggest_ran && !p.sibling_read && !p.parent_read
    &&& p.drafts.pov@.len() == 0 && p.drafts.timeline@.len() == 0 && p.drafts.outsider@.len() == 0
}

impl Default for Progress {
    fn default() -> (r: Progress)
        ensures
            is_fresh(r),
    {
        Progress {
            context_checked: Vec::new(),
            suggest_ran: false,
            sibling_read: false,
            parent_read: false,
            drafts: DraftSummary::default(),
        }
    }
}

impl Progress {
    /// Record that the context of an entity was looked at; an id already
    /// recorded is not added again.
    pub fn record_context(&mut self, entity_id: &str)
        ensures
            views(final(self).context_checked@) == if views(old(self).context_checked@).contains(entity_id@) {
                views(old(self).context_checked@)
            } else {
                views(old(self).context_checked@).push(entity_id@)
            },
            final(self).suggest_ran == old(self).suggest_ran,
            final(self).sibling_read == old(self).sibling_read,
            final(self).parent_read == old(self).parent_read,
            final(self).drafts == old(self).drafts,
    {
        if !contains_str(&self.context_checked, entity_id) {
            let ghost prev = self.context_checked@;
            self.context_checked.push(owned(entity_id));
            assert(views(self.context_checked@) =~= views(prev).push(entity_id@));
        }
    }

    pub fn record_suggest(&mut self)
        ensures
            final(self).suggest_ran,
            final(self).context_checked == old(self).context_checked,
            final(self).sibling_read == old(self).sibling_read,
            final(self).parent_read == old(self).parent_read,
            final(self).drafts == old(self).drafts,
    {
        self.suggest_ran = true;
    }

    pub fn record_sibling(&mut self)
        ensures
            final(self).sibling_read,
            final(self).context_checked == old(self).context_checked,
            final(self).suggest_ran == old(self).suggest_ran,
            final(self).parent_read == old(self).parent_read,
            final(self).drafts == old(self).drafts,
    {
        self.sibling_read = true;
    }

    pub fn record_parent(&mut self)
        ensures
            final(self).parent_read,
            final(self).context_checked == old(self).context_checked,
            final(self).suggest_ran == old(self).suggest_ran,
            final(self).sibling_read == old(self).sibling_read,
            final(self).drafts == old(self).drafts,
    {
        self.parent_read = true;
    }

    /// Replace the draft summary with one freshly taken from the drafts.
    pub fn sync_drafts(&mut self, drafts: DraftSummary)
        ensures
            final(self).drafts == drafts,
            final(self).context_checked == old(self).context_checked,
            final(self).suggest_ran == old(self).suggest_ran,
            final(self).sibling_read == old(self).sibling_read,
            final(self).parent_read == old(self).parent_read,
    {
        self.drafts = drafts;
    }

    /// Forget everything recorded (e.g., when a node is activated again).
    pub fn reset(&mut self)
        ensures
            is_fresh(*final(self)),
    {
        *self = Progress::default();
    }
}

// ── Card bodies and content directories ──────────────────────────

/// The description a card's body gives: the body without surrounding
/// whitespace, when anything is left.
pub open spec fn description_spec(body: Chars) -> Option<Chars> {
    if trim(body).len() == 0 {
        None
    } else {
        Some(trim(body))
    }
}

/// The description a card's Markdown body gives its entity.
pub fn card_description(body: &str) -> (r: Option<String>)
    ensures
        match r {
            Some(d) => description_spec(body@) == Some(d@),
            None => description_spec(body@) is None,
        },
{
    let v = chars_of(body);
    let (lo, hi) = trim_bounds(&v);
    if lo == hi {
        None
    } else {
        Some(string_from(v.as_slice(), lo, hi))
    }
}

/// `tail` appended to the path `base`, as a path: a `/` between them when
/// `base` is non-empty and does not end in one; an absolute `tail` stands
/// alone.
pub open spec fn path_join(base: Chars, tail: Chars) -> Chars {
    if tail.len() > 0 && tail[0] == '/' {
        tail
    } else if base.len() == 0 || base.last() == '/' {
        base + tail
    } else {
        base + "/"@ + tail
    }
}

fn join_path(base: &str, tail: &str) -> (r: String)
    ensures
        r@ == path_join(base@, tail@),
{
    let t = chars_of(tail);
    if t.len() > 0 && t[0] == '/' {
        return owned(tail);
    }
    let b = chars_of(base);
    let mut r = owned(base);
    if b.len() > 0 && b[b.len() - 1] != '/' {
        push_str(&mut r, "/");
    }
    push_str(&mut r, tail);
    r
}

/// The directory of a content node: `content` under the cards directory
/// for the root, and the node's id below that otherwise.
pub fn content_node_dir(cards_dir: &str, content_id: &str) -> (r: String)
    ensures
        r@ == if content_id@ == "root"@ {
            path_join(cards_dir@, "content"@)
        } else {
            path_join(path_join(cards_dir@, "content"@), content_id@)
        },
{
    let base = join_path(cards_dir, "content");
    if str_eq(content_id, "root") {
        base
    } else {
        join_path(base.as_str(), content_id)
    }
}

} // verus!
