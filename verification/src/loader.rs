//! Novel text split into chapters and paragraphs.
//!
//! Chapter headings are lines such as `第一章 …`, `第三回 …`, `Chapter 1 …`
//! or `卷二`; without any heading the whole text is one chapter. Inside a
//! chapter, blank lines and indented lines start new paragraphs.
use vstd::prelude::*;

use crate::text::{
    Chars, chars_of, find, lemma_find, lemma_find_char, owned, push_char, push_str, string_from,
    trim, ltrim, rtrim, views, whitespace,
};

verus! {

broadcast use vstd::seq_lib::group_seq_properties;

// ── Lines ────────────────────────────────────────────────────────

/// The text cut at each `\n`; a final newline ends the last line rather
/// than starting an empty one, and an empty text has no lines.
pub open spec fn split_lines(s: Chars) -> Seq<Chars>
    decreases s.len(),
{
    if s.len() == 0 {
        Seq::empty()
    } else {
        match find(s, '\n') {
            Some(k) => {
                proof {
                    lemma_find(s, '\n');
                }
                seq![s.take(k)] + split_lines(s.skip(k + 1))
            },
            None => seq![s],
        }
    }
}

pub open spec fn span_views(s: Chars, spans: Seq<(usize, usize)>) -> Seq<Chars> {
    spans.map_values(|sp: (usize, usize)| s.subrange(sp.0 as int, sp.1 as int))
}

pub open spec fn spans_ok(n: int, spans: Seq<(usize, usize)>) -> bool {
    forall|k: int| 0 <= k < spans.len() ==> #[trigger] spans[k].0 <= spans[k].1 <= n
}

/// Bounds of each line of `v`.
pub(crate) fn line_spans(v: &Vec<char>) -> (r: Vec<(usize, usize)>)
    ensures
        spans_ok(v@.len() as int, r@),
        span_views(v@, r@) == split_lines(v@),
{
    let n = v.len();
    let mut out: Vec<(usize, usize)> = Vec::new();
    let mut i: usize = 0;
    assert(v@.skip(0) == v@);
    while i < n
        invariant
            i <= n == v@.len(),
            spans_ok(n as int, out@),
            split_lines(v@) == span_views(v@, out@) + split_lines(v@.skip(i as int)),
        decreases n - i,
    {
        let ghost rest = v@.skip(i as int);
        let mut j: usize = i;
        while j < n && v[j] != '\n'
            invariant
                i <= j <= n == v@.len(),
                rest == v@.skip(i as int),
                forall|k: int| 0 <= k < j - i ==> rest[k] != '\n',
            decreases n - j,
        {
            j += 1;
        }
        let ghost prev = out@;
        out.push((i, j));
        assert(span_views(v@, out@) =~= span_views(v@, prev).push(v@.subrange(i as int, j as int)));
        if j < n {
            proof {
                lemma_find_char(rest, '\n', j - i);
                assert(rest.take(j - i) =~= v@.subrange(i as int, j as int));
                assert(rest.skip(j - i + 1) =~= v@.skip(j + 1));
                assert(split_lines(rest) == seq![rest.take(j - i)] + split_lines(rest.skip(j - i + 1)));
            }
            i = j + 1;
        } else {
            proof {
                lemma_find_char(rest, '\n', j - i);
                assert(rest =~= v@.subrange(i as int, j as int));
                assert(v@.skip(n as int) =~= Seq::<char>::empty());
            }
            i = n;
        }
    }
    assert(v@.skip(n as int) =~= Seq::<char>::empty());
    out
}

// ── Chapter headings ─────────────────────────────────────────────

/// Bytes taken by a character in UTF-8.
pub open spec fn utf8_width(c: char) -> nat {
    if (c as u32) < 0x80 {
        1
    } else if (c as u32) < 0x800 {
        2
    } else if (c as u32) < 0x10000 {
        3
    } else {
        4
    }
}

/// Bytes taken by a text in UTF-8.
pub open spec fn utf8_len(s: Chars) -> nat
    decreases s.len(),
{
    if s.len() == 0 {
        0
    } else {
        utf8_len(s.drop_last()) + utf8_width(s.last())
    }
}

proof fn lemma_utf8_len_prefix(s: Chars, i: int, j: int)
    requires
        0 <= i <= j <= s.len(),
    ensures
        utf8_len(s.take(i)) <= utf8_len(s.take(j)),
    decreases j - i,
{
    if i < j {
        assert(s.take(j).drop_last() == s.take(j - 1));
        lemma_utf8_len_prefix(s, i, j - 1);
    }
}

/// Whether the text takes more than `limit` bytes in UTF-8.
fn utf8_longer_than(v: &Vec<char>, limit: usize) -> (r: bool)
    requires
        limit < usize::MAX - 4,
    ensures
        r == (utf8_len(v@) > limit),
{
    let n = v.len();
    let mut total: usize = 0;
    let mut i: usize = 0;
    while i < n && total <= limit
        invariant
            i <= n == v@.len(),
            limit < usize::MAX - 4,
            total == utf8_len(v@.take(i as int)),
            total <= limit + 4,
        decreases n - i,
    {
        let c = v[i];
        let w: usize = if (c as u32) < 0x80 {
            1
        } else if (c as u32) < 0x800 {
            2
        } else if (c as u32) < 0x10000 {
            3
        } else {
            4
        };
        assert(v@.take(i + 1).drop_last() == v@.take(i as int));
        total = total + w;
        i += 1;
    }
    proof {
        lemma_utf8_len_prefix(v@, i as int, n as int);
        assert(v@.take(n as int) == v@);
    }
    total > limit
}

/// Upper-case form of the letters of `chapter `.
pub open spec fn upper(l: char) -> char {
    if l == 'c' {
        'C'
    } else if l == 'h' {
        'H'
    } else if l == 'a' {
        'A'
    } else if l == 'p' {
        'P'
    } else if l == 't' {
        'T'
    } else if l == 'e' {
        'E'
    } else if l == 'r' {
        'R'
    } else {
        l
    }
}

fn upper_of(l: char) -> (r: char)
    ensures
        r == upper(l),
{
    if l == 'c' {
        'C'
    } else if l == 'h' {
        'H'
    } else if l == 'a' {
        'A'
    } else if l == 'p' {
        'P'
    } else if l == 't' {
        'T'
    } else if l == 'e' {
        'E'
    } else if l == 'r' {
        'R'
    } else {
        l
    }
}

pub open spec fn chapter_word() -> Chars {
    seq!['c', 'h', 'a', 'p', 't', 'e', 'r', ' ']
}

/// Whether the text starts with `chapter ` in any letter case (what
/// lower-casing the text and testing for that prefix decides: only the
/// ASCII letters of the word lower-case to them).
pub open spec fn starts_chapter_word(t: Chars) -> bool {
    t.len() >= 8 && forall|k: int|
        0 <= k < 8 ==> (#[trigger] t[k] == chapter_word()[k] || t[k] == upper(chapter_word()[k]))
}

/// The marks that, after a leading `第`, make a heading.
pub open spec fn is_heading_mark(c: char) -> bool {
    c == '章' || c == '回' || c == '节' || c == '卷'
}

/// The heading a line holds, if it is one: its trimmed text.
pub open spec fn heading_spec(line: Chars) -> Option<Chars> {
    let t = trim(line);
    if t.len() == 0 || utf8_len(t) > 100 {
        None
    } else if t[0] == '第' && exists|k: int| 1 <= k < t.len() && is_heading_mark(#[trigger] t[k]) {
        Some(t)
    } else if starts_chapter_word(t) {
        Some(t)
    } else if t[0] == '卷' && t.len() < 30 {
        Some(t)
    } else {
        None
    }
}

pub(crate) fn trim_span(v: &Vec<char>, lo: usize, hi: usize) -> (r: (usize, usize))
    requires
        lo <= hi <= v@.len(),
    ensures
        lo <= r.0 <= r.1 <= hi,
        v@.subrange(r.0 as int, r.1 as int) == trim(v@.subrange(lo as int, hi as int)),
{
    let mut a: usize = lo;
    while a < hi && whitespace(v[a])
        invariant
            lo <= a <= hi <= v@.len(),
            ltrim(v@.subrange(lo as int, hi as int)) == ltrim(v@.subrange(a as int, hi as int)),
        decreases hi - a,
    {
        assert(v@.subrange(a as int, hi as int).drop_first() == v@.subrange(a + 1, hi as int));
        a += 1;
    }
    assert(ltrim(v@.subrange(a as int, hi as int)) == v@.subrange(a as int, hi as int));
    let mut b: usize = hi;
    while b > a && whitespace(v[b - 1])
        invariant
            lo <= a <= b <= hi <= v@.len(),
            trim(v@.subrange(lo as int, hi as int)) == rtrim(v@.subrange(a as int, b as int)),
        decreases b,
    {
        assert(v@.subrange(a as int, b as int).drop_last() == v@.subrange(a as int, b - 1));
        b -= 1;
    }
    (a, b)
}

#[verifier::loop_isolation(false)]
fn heading_in(v: &Vec<char>, lo: usize, hi: usize) -> (r: Option<String>)
    requires
        lo <= hi <= v@.len(),
    ensures
        match r {
            Some(s) => heading_spec(v@.subrange(lo as int, hi as int)) == Some(s@),
            None => heading_spec(v@.subrange(lo as int, hi as int)) is None,
        },
{
    let (a, b) = trim_span(v, lo, hi);
    let ghost t = v@.subrange(a as int, b as int);
    if a == b {
        return None;
    }
    let tv = chars_of(string_from(v.as_slice(), a, b).as_str());
    assert(tv@ == t);
    if utf8_longer_than(&tv, 100) {
        return None;
    }
    if tv[0] == '第' {
        let mut k: usize = 1;
        while k < tv.len()
            invariant
                1 <= k <= tv@.len(),
                tv@ == t,
                forall|j: int| 1 <= j < k ==> !is_heading_mark(#[trigger] t[j]),
            decreases tv@.len() - k,
        {
            let c = tv[k];
            if c == '章' || c == '回' || c == '节' || c == '卷' {
                assert(is_heading_mark(t[k as int]));
                return Some(string_from(v.as_slice(), a, b));
            }
            k += 1;
        }
    }
    if tv.len() >= 8 {
        let word = ['c', 'h', 'a', 'p', 't', 'e', 'r', ' '];
        assert(word@ == chapter_word());
        let mut k: usize = 0;
        let mut ok = true;
        while k < 8 && ok
            invariant
                k <= 8,
                tv@ == t,
                t.len() >= 8,
                word@ == chapter_word(),
                ok == forall|j: int|
                    0 <= j < k ==> (#[trigger] t[j] == chapter_word()[j] || t[j] == upper(chapter_word()[j])),
            decreases 8 - k,
        {
            let l = word[k];
            let c = tv[k];
            if !(c == l || c == upper_of(l)) {
                ok = false;
            }
            k += 1;
        }
        if ok {
            return Some(string_from(v.as_slice(), a, b));
        }
        proof {
            assert(!starts_chapter_word(t));
        }
    }
    if tv[0] == '卷' && tv.len() < 30 {
        return Some(string_from(v.as_slice(), a, b));
    }
    None
}

/// The heading a line holds, if it is one.
pub fn detect_chapter_heading(line: &str) -> (r: Option<String>)
    ensures
        match r {
            Some(s) => heading_spec(line@) == Some(s@),
            None => heading_spec(line@) is None,
        },
{
    let v = chars_of(line);
    assert(v@.subrange(0, v@.len() as int) == v@);
    heading_in(&v, 0, v.len())
}

// ── Paragraphs ───────────────────────────────────────────────────

/// The line without its trailing carriage returns.
pub open spec fn strip_cr(s: Chars) -> Chars
    decreases s.len(),
{
    if s.len() > 0 && s.last() == '\r' {
        strip_cr(s.drop_last())
    } else {
        s
    }
}

/// A full-width space, a tab or two spaces open the line.
pub open spec fn is_indent(l: Chars) -> bool {
    (l.len() >= 1 && (l[0] == '\u{3000}' || l[0] == '\t')) || (l.len() >= 2 && l[0] == ' ' && l[1] == ' ')
}

/// Paragraphs closed so far, and the one being gathered.
#[verifier::ext_equal]
pub ghost struct ParaState {
    pub done: Seq<Chars>,
    pub cur: Chars,
}

pub open spec fn flush(st: ParaState) -> ParaState {
    if st.cur.len() > 0 {
        ParaState { done: st.done.push(st.cur), cur: Seq::empty() }
    } else {
        st
    }
}

/// One line read: a blank line closes the paragraph; an indented line
/// starts a new one; other text joins the current one after a newline.
pub open spec fn para_step(st: ParaState, line: Chars) -> ParaState {
    let l = strip_cr(line);
    let t = trim(l);
    if t.len() == 0 {
        flush(st)
    } else {
        let st2 = if is_indent(l) {
            flush(st)
        } else {
            st
        };
        ParaState {
            done: st2.done,
            cur: if st2.cur.len() > 0 {
                st2.cur + seq!['\n'] + t
            } else {
                t
            },
        }
    }
}

pub open spec fn para_fold(lines: Seq<Chars>) -> ParaState
    decreases lines.len(),
{
    if lines.len() == 0 {
        ParaState { done: Seq::empty(), cur: Seq::empty() }
    } else {
        para_step(para_fold(lines.drop_last()), lines.last())
    }
}

/// The paragraphs of a run of lines.
pub open spec fn paragraphs_of(lines: Seq<Chars>) -> Seq<Chars> {
    flush(para_fold(lines)).done
}

/// Total number of characters of the texts.
pub open spec fn total_len(ps: Seq<Chars>) -> nat
    decreases ps.len(),
{
    if ps.len() == 0 {
        0
    } else {
        total_len(ps.drop_last()) + ps.last().len()
    }
}

/// The characters of the lines, one more per line for its end.
pub open spec fn weight(lines: Seq<Chars>) -> nat
    decreases lines.len(),
{
    if lines.len() == 0 {
        0
    } else {
        weight(lines.drop_last()) + lines.last().len() + 1
    }
}

proof fn lemma_strip_cr_len(s: Chars)
    ensures
        strip_cr(s).len() <= s.len(),
    decreases s.len(),
{
    if s.len() > 0 && s.last() == '\r' {
        lemma_strip_cr_len(s.drop_last());
    }
}

proof fn lemma_trim_len(s: Chars)
    ensures
        ltrim(s).len() <= s.len(),
        rtrim(s).len() <= s.len(),
        trim(s).len() <= s.len(),
    decreases s.len(),
{
    if s.len() > 0 {
        lemma_trim_len(s.drop_first());
        lemma_trim_len(s.drop_last());
    }
    lemma_rtrim_len(ltrim(s));
}

proof fn lemma_rtrim_len(s: Chars)
    ensures
        rtrim(s).len() <= s.len(),
    decreases s.len(),
{
    if s.len() > 0 {
        lemma_rtrim_len(s.drop_last());
    }
}

proof fn lemma_fold_bound(lines: Seq<Chars>)
    ensures
        total_len(para_fold(lines).done) + para_fold(lines).cur.len() <= weight(lines),
    decreases lines.len(),
{
    if lines.len() > 0 {
        lemma_fold_bound(lines.drop_last());
        let st = para_fold(lines.drop_last());
        let l = strip_cr(lines.last());
        lemma_strip_cr_len(lines.last());
        lemma_trim_len(l);
        assert(st.done.push(st.cur).drop_last() == st.done);
    }
}

proof fn lemma_paragraphs_bound(lines: Seq<Chars>)
    ensures
        total_len(paragraphs_of(lines)) <= weight(lines),
{
    lemma_fold_bound(lines);
    let st = para_fold(lines);
    assert(st.done.push(st.cur).drop_last() == st.done);
}

fn strip_cr_end(v: &Vec<char>, lo: usize, hi: usize) -> (r: usize)
    requires
        lo <= hi <= v@.len(),
    ensures
        lo <= r <= hi,
        v@.subrange(lo as int, r as int) == strip_cr(v@.subrange(lo as int, hi as int)),
{
    let mut e = hi;
    while e > lo && v[e - 1] == '\r'
        invariant
            lo <= e <= hi <= v@.len(),
            strip_cr(v@.subrange(lo as int, hi as int)) == strip_cr(v@.subrange(lo as int, e as int)),
        decreases e,
    {
        assert(v@.subrange(lo as int, e as int).drop_last() == v@.subrange(lo as int, e - 1));
        e -= 1;
    }
    e
}

/// The paragraphs of lines `from..to`.
fn paragraphs_in(v: &Vec<char>, spans: &Vec<(usize, usize)>, from: usize, to: usize) -> (r: Vec<String>)
    requires
        from <= to <= spans@.len(),
        spans_ok(v@.len() as int, spans@),
    ensures
        views(r@) == paragraphs_of(span_views(v@, spans@).subrange(from as int, to as int)),
{
    let ghost lines = span_views(v@, spans@);
    let mut done: Vec<String> = Vec::new();
    let mut cur = String::new();
    let mut has_cur = false;
    let mut k: usize = from;
    assert(lines.subrange(from as int, from as int) =~= Seq::<Chars>::empty());
    assert(para_fold(lines.subrange(from as int, from as int)) =~= (ParaState { done: views(done@), cur: cur@ }));
    while k < to
        invariant
            from <= k <= to <= spans@.len(),
            spans_ok(v@.len() as int, spans@),
            lines == span_views(v@, spans@),
            para_fold(lines.subrange(from as int, k as int)) == (ParaState { done: views(done@), cur: cur@ }),
            has_cur == (cur@.len() > 0),
        decreases to - k,
    {
        let (lo, hi) = spans[k];
        assert(spans@[k as int].0 <= spans@[k as int].1 <= v@.len());
        let ghost line = v@.subrange(lo as int, hi as int);
        proof {
            assert(lines.subrange(from as int, k + 1).drop_last() == lines.subrange(from as int, k as int));
            assert(lines.subrange(from as int, k + 1).last() == line);
        }
        let e = strip_cr_end(v, lo, hi);
        let (a, b) = trim_span(v, lo, e);
        let ghost l = v@.subrange(lo as int, e as int);
        let ghost next = para_step(ParaState { done: views(done@), cur: cur@ }, line);
        if a == b {
            if has_cur {
                let ghost prev = done@;
                done.push(cur);
                assert(views(done@) =~= views(prev).push(done@.last()@));
                cur = String::new();
                has_cur = false;
            }
        } else {
            let indent = (e > lo && (v[lo] == '\u{3000}' || v[lo] == '\t')) || (e - lo >= 2 && v[lo] == ' ' && v[lo
                + 1] == ' ');
            assert(indent == is_indent(l));
            if indent && has_cur {
                let ghost prev = done@;
                done.push(cur);
                assert(views(done@) =~= views(prev).push(done@.last()@));
                cur = String::new();
                has_cur = false;
            }
            if has_cur {
                push_char(&mut cur, '\n');
            }
            push_str(&mut cur, string_from(v.as_slice(), a, b).as_str());
            has_cur = true;
        }
        assert(next.done =~= views(done@));
        assert(next.cur =~= cur@);
        assert(para_fold(lines.subrange(from as int, k + 1)) =~= (ParaState { done: views(done@), cur: cur@ }));
        k += 1;
    }
    if has_cur {
        let ghost prev = done@;
        done.push(cur);
        assert(views(done@) =~= views(prev).push(done@.last()@));
    }
    done
}

// ── Chapters ─────────────────────────────────────────────────────

/// The headings among the lines, with the index of the line of each.
pub open spec fn heading_list(lines: Seq<Chars>) -> Seq<(int, Chars)>
    decreases lines.len(),
{
    if lines.len() == 0 {
        Seq::empty()
    } else {
        let rest = heading_list(lines.drop_last());
        match heading_spec(lines.last()) {
            Some(t) => rest.push((lines.len() - 1, t)),
            None => rest,
        }
    }
}

/// A parsed novel.
#[derive(Debug)]
pub struct Novel {
    pub title: String,
    pub chapters: Vec<Chapter>,
    pub total_chars: usize,
}

/// A single chapter.
#[derive(Debug)]
pub struct Chapter {
    pub index: usize,
    pub title: String,
    pub paragraphs: Vec<String>,
    pub char_count: usize,
}

/// A paragraph with its chapter context.
#[derive(Debug)]
pub struct Paragraph {
    pub chapter_index: usize,
    pub paragraph_index: usize,
    pub text: String,
}

pub ghost struct ChapterV {
    pub index: nat,
    pub title: Chars,
    pub paragraphs: Seq<Chars>,
    pub char_count: nat,
}

pub ghost struct NovelV {
    pub title: Chars,
    pub chapters: Seq<ChapterV>,
    pub total_chars: nat,
}

pub ghost struct ParagraphV {
    pub chapter_index: nat,
    pub paragraph_index: nat,
    pub text: Chars,
}

impl View for Chapter {
    type V = ChapterV;

    open spec fn view(&self) -> ChapterV {
        ChapterV {
            index: self.index as nat,
            title: self.title@,
            paragraphs: views(self.paragraphs@),
            char_count: self.char_count as nat,
        }
    }
}

pub open spec fn chapter_views(cs: Seq<Chapter>) -> Seq<ChapterV> {
    cs.map_values(|c: Chapter| c@)
}

impl View for Novel {
    type V = NovelV;

    open spec fn view(&self) -> NovelV {
        NovelV { title: self.title@, chapters: chapter_views(self.chapters@), total_chars: self.total_chars as nat }
    }
}

impl View for Paragraph {
    type V = ParagraphV;

    open spec fn view(&self) -> ParagraphV {
        ParagraphV {
            chapter_index: self.chapter_index as nat,
            paragraph_index: self.paragraph_index as nat,
            text: self.text@,
        }
    }
}

pub open spec fn chapter_of(index: nat, title: Chars, lines: Seq<Chars>) -> ChapterV {
    let ps = paragraphs_of(lines);
    ChapterV { index, title, paragraphs: ps, char_count: total_len(ps) }
}

/// Where the lines of the `k`th chapter end.
pub open spec fn chapter_end(lines: Seq<Chars>, hs: Seq<(int, Chars)>, k: int) -> int {
    if k + 1 < hs.len() {
        hs[k + 1].0
    } else {
        lines.len() as int
    }
}

/// Each heading opens a chapter that runs to the next heading; without
/// headings, the whole text is one chapter titled `全文`.
pub open spec fn chapters_spec(lines: Seq<Chars>) -> Seq<ChapterV> {
    let hs = heading_list(lines);
    if hs.len() == 0 {
        seq![chapter_of(0, "全文"@, lines)]
    } else {
        Seq::new(
            hs.len(),
            |k: int| chapter_of(k as nat, hs[k].1, lines.subrange(hs[k].0 + 1, chapter_end(lines, hs, k))),
        )
    }
}

pub open spec fn total_count(cs: Seq<ChapterV>) -> nat
    decreases cs.len(),
{
    if cs.len() == 0 {
        0
    } else {
        total_count(cs.drop_last()) + cs.last().char_count
    }
}

pub open spec fn novel_spec(text: Chars, title: Chars) -> NovelV {
    let cs = chapters_spec(split_lines(text));
    NovelV { title, chapters: cs, total_chars: total_count(cs) }
}

proof fn lemma_weight_split_lines(s: Chars)
    ensures
        weight(split_lines(s)) <= s.len() + 1,
    decreases s.len(),
{
    if s.len() > 0 {
        lemma_find(s, '\n');
        assert(weight(Seq::<Chars>::empty()) == 0);
        match find(s, '\n') {
            Some(k) => {
                lemma_weight_split_lines(s.skip(k + 1));
                lemma_weight_concat(seq![s.take(k)], split_lines(s.skip(k + 1)));
                assert(seq![s.take(k)].drop_last() =~= Seq::<Chars>::empty());
                assert(weight(seq![s.take(k)]) == k + 1);
                assert(split_lines(s) == seq![s.take(k)] + split_lines(s.skip(k + 1)));
            },
            None => {
                assert(seq![s].drop_last() =~= Seq::<Chars>::empty());
                assert(weight(seq![s]) == s.len() + 1);
                assert(split_lines(s) == seq![s]);
            },
        }
    }
}

proof fn lemma_weight_concat(a: Seq<Chars>, b: Seq<Chars>)
    ensures
        weight(a + b) == weight(a) + weight(b),
    decreases b.len(),
{
    if b.len() > 0 {
        assert((a + b).drop_last() =~= a + b.drop_last());
        lemma_weight_concat(a, b.drop_last());
    } else {
        assert(a + b =~= a);
    }
}

proof fn lemma_weight_split(lines: Seq<Chars>, a: int, b: int, c: int)
    requires
        0 <= a <= b <= c <= lines.len(),
    ensures
        weight(lines.subrange(a, c)) == weight(lines.subrange(a, b)) + weight(lines.subrange(b, c)),
{
    assert(lines.subrange(a, c) =~= lines.subrange(a, b) + lines.subrange(b, c));
    lemma_weight_concat(lines.subrange(a, b), lines.subrange(b, c));
}

proof fn lemma_total_len_prefix(ps: Seq<Chars>, i: int, j: int)
    requires
        0 <= i <= j <= ps.len(),
    ensures
        total_len(ps.take(i)) <= total_len(ps.take(j)),
    decreases j - i,
{
    if i < j {
        assert(ps.take(j).drop_last() == ps.take(j - 1));
        lemma_total_len_prefix(ps, i, j - 1);
    }
}

/// Number of characters of all the paragraphs.
fn count_chars(ps: &Vec<String>, Ghost(bound): Ghost<nat>) -> (r: usize)
    requires
        total_len(views(ps@)) <= bound <= usize::MAX,
    ensures
        r == total_len(views(ps@)),
{
    let ghost pv = views(ps@);
    let mut cnt: usize = 0;
    let mut i: usize = 0;
    while i < ps.len()
        invariant
            i <= ps@.len(),
            pv == views(ps@),
            total_len(pv) <= bound <= usize::MAX,
            cnt == total_len(pv.take(i as int)),
        decreases ps@.len() - i,
    {
        let len = chars_of(ps[i].as_str()).len();
        proof {
            assert(pv.take(i + 1).drop_last() == pv.take(i as int));
            lemma_total_len_prefix(pv, i + 1, pv.len() as int);
            assert(pv.take(pv.len() as int) == pv);
        }
        cnt = cnt + len;
        i += 1;
    }
    assert(pv.take(ps@.len() as int) == pv);
    cnt
}

/// A parsed novel has at least one chapter, chapters numbered from zero,
/// and its total is the sum of its chapters' counts, each the number of
/// characters of its paragraphs.
pub proof fn lemma_novel_shape(text: Chars, title: Chars)
    ensures
        novel_spec(text, title).chapters.len() >= 1,
        forall|k: int|
            0 <= k < novel_spec(text, title).chapters.len() ==> (#[trigger] novel_spec(text, title).chapters[k]).index
                == k,
        forall|k: int|
            0 <= k < novel_spec(text, title).chapters.len() ==> (#[trigger] novel_spec(text, title).chapters[k]).char_count
                == total_len(novel_spec(text, title).chapters[k].paragraphs),
        novel_spec(text, title).total_chars == total_count(novel_spec(text, title).chapters),
        heading_list(split_lines(text)).len() == 0 ==> novel_spec(text, title).chapters[0].title == "全文"@,
{
}

pub open spec fn heads_view(hs: Seq<(usize, String)>) -> Seq<(int, Chars)> {
    hs.map_values(|h: (usize, String)| (h.0 as int, h.1@))
}

/// The chapter headings among the lines, with their line numbers.
fn find_headings(v: &Vec<char>, spans: &Vec<(usize, usize)>) -> (r: Vec<(usize, String)>)
    requires
        spans_ok(v@.len() as int, spans@),
    ensures
        heads_view(r@) == heading_list(span_views(v@, spans@)),
        forall|k: int| 0 <= k < r@.len() ==> #[trigger] r@[k].0 < spans@.len(),
        forall|j: int, k: int| 0 <= j < k < r@.len() ==> r@[j].0 < r@[k].0,
{
    let ghost lines = span_views(v@, spans@);
    let mut heads: Vec<(usize, String)> = Vec::new();
    let mut i: usize = 0;
    while i < spans.len()
        invariant
            i <= spans@.len(),
            spans_ok(v@.len() as int, spans@),
            lines == span_views(v@, spans@),
            heads_view(heads@) == heading_list(lines.take(i as int)),
            forall|k: int| 0 <= k < heads@.len() ==> #[trigger] heads@[k].0 < i,
            forall|j: int, k: int| 0 <= j < k < heads@.len() ==> heads@[j].0 < heads@[k].0,
        decreases spans@.len() - i,
    {
        let (lo, hi) = spans[i];
        assert(spans@[i as int].0 <= spans@[i as int].1 <= v@.len());
        proof {
            assert(lines.take(i + 1).drop_last() == lines.take(i as int));
            assert(lines.take(i + 1).last() == v@.subrange(lo as int, hi as int));
        }
        match heading_in(v, lo, hi) {
            Some(t) => {
                let ghost prev = heads@;
                heads.push((i, t));
                assert(heads_view(heads@) =~= heads_view(prev).push((i as int, heads@.last().1@)));
            },
            None => {},
        }
        i += 1;
    }
    assert(lines.take(spans@.len() as int) == lines);
    heads
}

/// The chapter made of lines `from..to`.
fn build_chapter(
    v: &Vec<char>,
    spans: &Vec<(usize, usize)>,
    index: usize,
    from: usize,
    to: usize,
    title: String,
    Ghost(lines): Ghost<Seq<Chars>>,
) -> (c: Chapter)
    requires
        from <= to <= spans@.len(),
        spans_ok(v@.len() as int, spans@),
        lines == span_views(v@, spans@),
        weight(lines.subrange(from as int, to as int)) <= usize::MAX,
    ensures
        c@ == chapter_of(index as nat, title@, lines.subrange(from as int, to as int)),
        c.char_count <= weight(lines.subrange(from as int, to as int)),
{
    let ps = paragraphs_in(v, spans, from, to);
    proof {
        lemma_paragraphs_bound(lines.subrange(from as int, to as int));
    }
    let cc = count_chars(&ps, Ghost(weight(lines.subrange(from as int, to as int))));
    Chapter { index, title, paragraphs: ps, char_count: cc }
}

/// Parse novel text into chapters and paragraphs.
#[verifier::rlimit(60)]
#[verifier::spinoff_prover]
pub fn parse_novel(text: &str, title: &str) -> (r: Novel)
    requires
        text@.len() < usize::MAX,
    ensures
        r@ == novel_spec(text@, title@),
{
    let v = chars_of(text);
    let spans = line_spans(&v);
    let ghost lines = span_views(v@, spans@);
    let n = spans.len();
    proof {
        lemma_weight_split_lines(text@);
        assert(lines.subrange(0, n as int) == lines);
    }
    let heads = find_headings(&v, &spans);
    let ghost hs = heading_list(lines);
    let ghost cs = chapters_spec(lines);
    assert(lines == split_lines(text@));
    assert(heads@.len() == hs.len());
    let mut chapters: Vec<Chapter> = Vec::new();
    let mut total: usize = 0;
    if heads.len() == 0 {
        let ps = paragraphs_in(&v, &spans, 0, n);
        proof {
            lemma_paragraphs_bound(lines);
        }
        let cc = count_chars(&ps, Ghost(weight(lines)));
        chapters.push(Chapter { index: 0, title: owned("全文"), paragraphs: ps, char_count: cc });
        total = cc;
        proof {
            assert(chapter_views(chapters@) =~= cs);
            assert(cs.drop_last() =~= Seq::<ChapterV>::empty());
            assert(total_count(Seq::<ChapterV>::empty()) == 0);
            assert(total == total_count(cs));
        }
    } else {
        let mut k: usize = 0;
        assert(cs.len() == hs.len());
        while k < heads.len()
            invariant
                cs.len() == hs.len(),
                forall|j: int|
                    0 <= j < hs.len() ==> #[trigger] cs[j] == chapter_of(
                        j as nat,
                        hs[j].1,
                        lines.subrange(hs[j].0 + 1, chapter_end(lines, hs, j)),
                    ),
                k <= heads@.len() == hs.len(),
                n == spans@.len() == lines.len(),
                spans_ok(v@.len() as int, spans@),
                lines == span_views(v@, spans@),
                heads_view(heads@) == hs,
                hs.len() > 0,
                cs == chapters_spec(lines),
                forall|j: int| 0 <= j < heads@.len() ==> #[trigger] heads@[j].0 < n,
                forall|a: int, b: int| 0 <= a < b < heads@.len() ==> heads@[a].0 < heads@[b].0,
                weight(lines) <= usize::MAX,
                chapter_views(chapters@) == cs.take(k as int),
                total == total_count(cs.take(k as int)),
                total <= weight(lines.take(if k < heads@.len() { heads@[k as int].0 as int } else { n as int })),
            decreases heads@.len() - k,
        {
            let start = heads[k].0;
            let end = if k + 1 < heads.len() {
                heads[k + 1].0
            } else {
                n
            };
            assert(hs[k as int].0 == start as int);
            assert(chapter_end(lines, hs, k as int) == end as int);
            proof {
                lemma_weight_split(lines, 0, start as int, end as int);
                lemma_weight_split(lines, start as int, start + 1, end as int);
                lemma_weight_split(lines, 0, end as int, n as int);
                assert(lines.subrange(0, start as int) == lines.take(start as int));
                assert(lines.subrange(0, end as int) == lines.take(end as int));
                assert(lines.subrange(0, n as int) == lines);
            }
            let chapter = build_chapter(&v, &spans, k, start + 1, end, heads[k].1.clone(), Ghost(lines));
            let cc = chapter.char_count;
            let ghost prev = chapters@;
            chapters.push(chapter);
            proof {
                assert(cs[k as int] == chapter_of(k as nat, hs[k as int].1, lines.subrange(start + 1, end as int)));
                assert(chapter_views(chapters@) =~= chapter_views(prev).push(cs[k as int]));
                assert(cs.take(k + 1) =~= cs.take(k as int).push(cs[k as int]));
                assert(cs.take(k + 1).drop_last() =~= cs.take(k as int));
            }
            total = total + cc;
            k += 1;
        }
        proof {
            assert(cs.take(heads@.len() as int) =~= cs);
        }
    }
    let r = Novel { title: owned(title), chapters, total_chars: total };
    assert(r@.chapters =~= cs);
    assert(r@.total_chars == total_count(cs));
    r
}

/// Every paragraph of the chapters, with its chapter index and its place
/// in the chapter.
pub open spec fn paragraph_list(cs: Seq<ChapterV>) -> Seq<ParagraphV>
    decreases cs.len(),
{
    if cs.len() == 0 {
        Seq::empty()
    } else {
        let c = cs.last();
        paragraph_list(cs.drop_last()) + Seq::new(
            c.paragraphs.len(),
            |pi: int| ParagraphV { chapter_index: c.index, paragraph_index: pi as nat, text: c.paragraphs[pi] },
        )
    }
}

pub open spec fn paragraph_views(ps: Seq<Paragraph>) -> Seq<ParagraphV> {
    ps.map_values(|p: Paragraph| p@)
}

impl Novel {
    /// All paragraphs with their chapter context.
    pub fn paragraphs(&self) -> (r: Vec<Paragraph>)
        ensures
            paragraph_views(r@) == paragraph_list(self@.chapters),
    {
        let ghost cs = self@.chapters;
        let mut out: Vec<Paragraph> = Vec::new();
        let mut c: usize = 0;
        while c < self.chapters.len()
            invariant
                c <= self.chapters@.len(),
                cs == self@.chapters,
                paragraph_views(out@) == paragraph_list(cs.take(c as int)),
            decreases self.chapters@.len() - c,
        {
            let ch = &self.chapters[c];
            let ghost base = out@;
            let ghost chv = ch@;
            proof {
                assert(cs.take(c + 1).drop_last() == cs.take(c as int));
                assert(cs.take(c + 1).last() == chv);
            }
            let mut pi: usize = 0;
            while pi < ch.paragraphs.len()
                invariant
                    pi <= ch.paragraphs@.len(),
                    chv == ch@,
                    paragraph_views(out@) == paragraph_views(base) + Seq::new(
                        pi as nat,
                        |q: int| ParagraphV { chapter_index: chv.index, paragraph_index: q as nat, text: chv.paragraphs[q] },
                    ),
                decreases ch.paragraphs@.len() - pi,
            {
                let ghost prev = out@;
                out.push(Paragraph { chapter_index: ch.index, paragraph_index: pi, text: ch.paragraphs[pi].clone() });
                assert(paragraph_views(out@) =~= paragraph_views(prev).push(out@.last()@));
                assert(paragraph_views(out@) =~= paragraph_views(base) + Seq::new(
                    (pi + 1) as nat,
                    |q: int| ParagraphV { chapter_index: chv.index, paragraph_index: q as nat, text: chv.paragraphs[q] },
                ));
                pi += 1;
            }
            c += 1;
        }
        assert(cs.take(self.chapters@.len() as int) == cs);
        out
    }

    pub fn chapter_count(&self) -> (r: usize)
        ensures
            r == self@.chapters.len(),
    {
        self.chapters.len()
    }
}

} // verus!
