//! Character discovery in novel text.
//!
//! A name is taken from what stands before a speech verb ("XX说道",
//! "XX问道"), skipping one adverb particle, and kept when it looks like a
//! Chinese name by its characters alone.
use vstd::prelude::*;

use crate::content::keys;
use crate::history::{lemma_first_index_at, lemma_first_index_spec};
use crate::loader::{ChapterV, Novel};
use crate::op::first_index;
use crate::text::{Chars, chars_of, owned, str_eq, string_from, views};

verus! {

broadcast use vstd::seq_lib::group_seq_properties;

// ── What a name looks like ───────────────────────────────────────

pub open spec fn is_cjk(c: char) -> bool {
    ('\u{4E00}' <= c && c <= '\u{9FFF}') || ('\u{3400}' <= c && c <= '\u{4DBF}') || ('\u{F900}' <= c && c
        <= '\u{FAFF}')
}

/// Function words that do not open a name.
pub open spec fn bad_start(c: char) -> bool {
    c == '不' || c == '也' || c == '就' || c == '都' || c == '又' || c == '在' || c == '出' || c == '成' || c
        == '化' || c == '被' || c == '把' || c == '让' || c == '给' || c == '对' || c == '向' || c == '从'
        || c == '到' || c == '这' || c == '那' || c == '要' || c == '会' || c == '能' || c == '可' || c
        == '该' || c == '得' || c == '有' || c == '没' || c == '很' || c == '太' || c == '最' || c == '更'
        || c == '还' || c == '才' || c == '已' || c == '正' || c == '将' || c == '一' || c == '两' || c
        == '几' || c == '所' || c == '每' || c == '全' || c == '各'
}

/// Particles that do not close a name.
pub open spec fn bad_end(c: char) -> bool {
    c == '地' || c == '着' || c == '了' || c == '的' || c == '得' || c == '过' || c == '们' || c == '吗'
        || c == '呢' || c == '吧' || c == '啊' || c == '呀' || c == '哦' || c == '嘛' || c == '么'
}

/// Adverb particles skipped between a name and its speech verb.
pub open spec fn is_adverb_mark(c: char) -> bool {
    c == '地' || c == '着' || c == '了' || c == '的' || c == '得'
}

pub const NON_NAME_COUNT: usize = 46;

/// Common words that look like names but are not.
pub open spec fn non_name(k: int) -> Chars {
    if k == 0 { "众人"@ } else if k == 1 { "那人"@ } else if k == 2 { "此人"@ } else if k == 3 { "有人"@ }
    else if k == 4 { "何人"@ } else if k == 5 { "他人"@ } else if k == 6 { "旁人"@ } else if k == 7 { "老者"@ }
    else if k == 8 { "少年"@ } else if k == 9 { "女子"@ } else if k == 10 { "男子"@ } else if k == 11 { "弟子"@ }
    else if k == 12 { "长老"@ } else if k == 13 { "老人"@ } else if k == 14 { "对方"@ } else if k == 15 { "自己"@ }
    else if k == 16 { "我们"@ } else if k == 17 { "他们"@ } else if k == 18 { "她们"@ } else if k == 19 { "你们"@ }
    else if k == 20 { "什么"@ } else if k == 21 { "如何"@ } else if k == 22 { "怎么"@ } else if k == 23 { "为何"@ }
    else if k == 24 { "无疑"@ } else if k == 25 { "果然"@ } else if k == 26 { "竟然"@ } else if k == 27 { "居然"@ }
    else if k == 28 { "突然"@ } else if k == 29 { "当然"@ } else if k == 30 { "忽然"@ } else if k == 31 { "随即"@ }
    else if k == 32 { "随后"@ } else if k == 33 { "然后"@ } else if k == 34 { "接着"@ } else if k == 35 { "终于"@ }
    else if k == 36 { "马上"@ } else if k == 37 { "立刻"@ } else if k == 38 { "声大"@ } else if k == 39 { "平静"@ }
    else if k == 40 { "冷漠"@ } else if k == 41 { "冷冷"@ } else if k == 42 { "大声"@ } else if k == 43 { "低声"@ }
    else if k == 44 { "淡淡"@ } else { "沉声"@ }
}

fn non_name_at(k: usize) -> (r: &'static str)
    requires
        k < NON_NAME_COUNT,
    ensures
        r@ == non_name(k as int),
{
    if k == 0 { "众人" } else if k == 1 { "那人" } else if k == 2 { "此人" } else if k == 3 { "有人" }
    else if k == 4 { "何人" } else if k == 5 { "他人" } else if k == 6 { "旁人" } else if k == 7 { "老者" }
    else if k == 8 { "少年" } else if k == 9 { "女子" } else if k == 10 { "男子" } else if k == 11 { "弟子" }
    else if k == 12 { "长老" } else if k == 13 { "老人" } else if k == 14 { "对方" } else if k == 15 { "自己" }
    else if k == 16 { "我们" } else if k == 17 { "他们" } else if k == 18 { "她们" } else if k == 19 { "你们" }
    else if k == 20 { "什么" } else if k == 21 { "如何" } else if k == 22 { "怎么" } else if k == 23 { "为何" }
    else if k == 24 { "无疑" } else if k == 25 { "果然" } else if k == 26 { "竟然" } else if k == 27 { "居然" }
    else if k == 28 { "突然" } else if k == 29 { "当然" } else if k == 30 { "忽然" } else if k == 31 { "随即" }
    else if k == 32 { "随后" } else if k == 33 { "然后" } else if k == 34 { "接着" } else if k == 35 { "终于" }
    else if k == 36 { "马上" } else if k == 37 { "立刻" } else if k == 38 { "声大" } else if k == 39 { "平静" }
    else if k == 40 { "冷漠" } else if k == 41 { "冷冷" } else if k == 42 { "大声" } else if k == 43 { "低声" }
    else if k == 44 { "淡淡" } else { "沉声" }
}

pub open spec fn is_non_name(s: Chars) -> bool {
    exists|k: int| 0 <= k < NON_NAME_COUNT && non_name(k) == s
}

/// A 2–3 character string that looks like a Chinese name: all CJK
/// ideographs, not opened by a function word, not closed by a particle,
/// and not a common non-name word.
pub open spec fn likely_name(s: Chars) -> bool {
    &&& forall|i: int| 0 <= i < s.len() ==> is_cjk(#[trigger] s[i])
    &&& !bad_start(s[0])
    &&& !bad_end(s.last())
    &&& !is_non_name(s)
}

/// Whether the text looks like a Chinese name.
pub fn is_likely_name(s: &str) -> (r: bool)
    requires
        s@.len() > 0,
    ensures
        r == likely_name(s@),
{
    let v = chars_of(s);
    let mut i: usize = 0;
    while i < v.len()
        invariant
            i <= v@.len(),
            v@ == s@,
            forall|j: int| 0 <= j < i ==> is_cjk(#[trigger] v@[j]),
        decreases v@.len() - i,
    {
        let c = v[i];
        if !(('\u{4E00}' <= c && c <= '\u{9FFF}') || ('\u{3400}' <= c && c <= '\u{4DBF}') || ('\u{F900}' <= c
            && c <= '\u{FAFF}')) {
            return false;
        }
        i += 1;
    }
    let c = v[0];
    if c == '不' || c == '也' || c == '就' || c == '都' || c == '又' || c == '在' || c == '出' || c == '成' || c
        == '化' || c == '被' || c == '把' || c == '让' || c == '给' || c == '对' || c == '向' || c == '从'
        || c == '到' || c == '这' || c == '那' || c == '要' || c == '会' || c == '能' || c == '可' || c
        == '该' || c == '得' || c == '有' || c == '没' || c == '很' || c == '太' || c == '最' || c == '更'
        || c == '还' || c == '才' || c == '已' || c == '正' || c == '将' || c == '一' || c == '两' || c
        == '几' || c == '所' || c == '每' || c == '全' || c == '各' {
        return false;
    }
    let c = v[v.len() - 1];
    if c == '地' || c == '着' || c == '了' || c == '的' || c == '得' || c == '过' || c == '们' || c == '吗'
        || c == '呢' || c == '吧' || c == '啊' || c == '呀' || c == '哦' || c == '嘛' || c == '么' {
        return false;
    }
    let mut k: usize = 0;
    while k < NON_NAME_COUNT
        invariant
            k <= NON_NAME_COUNT,
            forall|j: int| 0 <= j < k ==> non_name(j) != s@,
        decreases NON_NAME_COUNT - k,
    {
        if str_eq(s, non_name_at(k)) {
            return false;
        }
        k += 1;
    }
    true
}

// ── Speech verbs and the names before them ───────────────────────

pub const VERB_COUNT: usize = 26;

/// Speech verbs, longest first so that "说道" is seen before "说".
pub open spec fn verb(k: int) -> Chars {
    if k == 0 { "冷笑道"@ } else if k == 1 { "大笑道"@ } else if k == 2 { "冷声道"@ } else if k == 3 { "淡淡道"@ }
    else if k == 4 { "沉声道"@ } else if k == 5 { "低声道"@ } else if k == 6 { "厉声道"@ } else if k == 7 { "大喊道"@ }
    else if k == 8 { "大声道"@ } else if k == 9 { "低声说"@ } else if k == 10 { "说道"@ } else if k == 11 { "笑道"@ }
    else if k == 12 { "问道"@ } else if k == 13 { "答道"@ } else if k == 14 { "喝道"@ } else if k == 15 { "叹道"@ }
    else if k == 16 { "怒道"@ } else if k == 17 { "心中想"@ } else if k == 18 { "暗想"@ } else if k == 19 { "心想"@ }
    else if k == 20 { "说"@ } else if k == 21 { "道"@ } else if k == 22 { "问"@ } else if k == 23 { "答"@ }
    else if k == 24 { "嚷"@ } else { "吼"@ }
}

fn verb_at(k: usize) -> (r: &'static str)
    requires
        k < VERB_COUNT,
    ensures
        r@ == verb(k as int),
{
    if k == 0 { "冷笑道" } else if k == 1 { "大笑道" } else if k == 2 { "冷声道" } else if k == 3 { "淡淡道" }
    else if k == 4 { "沉声道" } else if k == 5 { "低声道" } else if k == 6 { "厉声道" } else if k == 7 { "大喊道" }
    else if k == 8 { "大声道" } else if k == 9 { "低声说" } else if k == 10 { "说道" } else if k == 11 { "笑道" }
    else if k == 12 { "问道" } else if k == 13 { "答道" } else if k == 14 { "喝道" } else if k == 15 { "叹道" }
    else if k == 16 { "怒道" } else if k == 17 { "心中想" } else if k == 18 { "暗想" } else if k == 19 { "心想" }
    else if k == 20 { "说" } else if k == 21 { "道" } else if k == 22 { "问" } else if k == 23 { "答" }
    else if k == 24 { "嚷" } else { "吼" }
}

/// The names taken before a speech verb that starts at `i`: the two and
/// the three characters before it (or before the adverb particle that
/// precedes it), those that look like names.
pub open spec fn names_before(cs: Chars, i: int) -> Seq<Chars> {
    let end = if i > 0 && is_adverb_mark(cs[i - 1]) {
        i - 1
    } else {
        i
    };
    let two = if end >= 2 && likely_name(cs.subrange(end - 2, end)) {
        seq![cs.subrange(end - 2, end)]
    } else {
        Seq::empty()
    };
    let three = if end >= 3 && likely_name(cs.subrange(end - 3, end)) {
        seq![cs.subrange(end - 3, end)]
    } else {
        Seq::empty()
    };
    two + three
}

/// Every speech verb is at least one character long.
pub proof fn lemma_verb_nonempty(k: int)
    requires
        0 <= k < VERB_COUNT,
    ensures
        verb(k).len() > 0,
{
    reveal_strlit("冷笑道"); reveal_strlit("大笑道"); reveal_strlit("冷声道"); reveal_strlit("淡淡道");
    reveal_strlit("沉声道"); reveal_strlit("低声道"); reveal_strlit("厉声道"); reveal_strlit("大喊道");
    reveal_strlit("大声道"); reveal_strlit("低声说"); reveal_strlit("说道"); reveal_strlit("笑道");
    reveal_strlit("问道"); reveal_strlit("答道"); reveal_strlit("喝道"); reveal_strlit("叹道");
    reveal_strlit("怒道"); reveal_strlit("心中想"); reveal_strlit("暗想"); reveal_strlit("心想");
    reveal_strlit("说"); reveal_strlit("道"); reveal_strlit("问"); reveal_strlit("答");
    reveal_strlit("嚷"); reveal_strlit("吼");
}

/// Whether speech verb `k` is written at `i`.
pub open spec fn verb_here(cs: Chars, i: int, k: int) -> bool {
    i + verb(k).len() <= cs.len() && cs.subrange(i, i + verb(k).len()) == verb(k)
}

/// The first speech verb, from `k` on in the list (so the longest), that
/// is written at `i`.
pub open spec fn verb_from(cs: Chars, i: int, k: int) -> Option<int>
    decreases VERB_COUNT - k,
{
    if k < 0 || k >= VERB_COUNT {
        None
    } else if verb_here(cs, i, k) {
        Some(k)
    } else {
        verb_from(cs, i, k + 1)
    }
}

pub proof fn lemma_verb_from_range(cs: Chars, i: int, k: int)
    ensures
        verb_from(cs, i, k) matches Some(j) ==> k <= j < VERB_COUNT && verb_here(cs, i, j),
    decreases VERB_COUNT - k,
{
    if 0 <= k < VERB_COUNT && !verb_here(cs, i, k) {
        lemma_verb_from_range(cs, i, k + 1);
    }
}

/// Names found scanning a paragraph from `i`: where a speech verb is
/// written, the longest one there is taken once, the names before it are
/// counted, and the scan goes on past it; elsewhere one character further.
pub open spec fn scan(cs: Chars, i: int) -> Seq<Chars>
    decreases cs.len() - i,
{
    if i < 0 || i >= cs.len() {
        Seq::empty()
    } else {
        match verb_from(cs, i, 0) {
            Some(k) => {
                proof {
                    lemma_verb_from_range(cs, i, 0);
                    lemma_verb_nonempty(k);
                }
                names_before(cs, i) + scan(cs, i + verb(k).len())
            },
            None => scan(cs, i + 1),
        }
    }
}

pub open spec fn para_names(cs: Chars) -> Seq<Chars> {
    scan(cs, 0)
}

fn names_before_exec(v: &Vec<char>, i: usize, out: &mut Vec<String>)
    requires
        i <= v@.len(),
    ensures
        views(final(out)@) == views(old(out)@) + names_before(v@, i as int),
{
    let end = if i > 0 && (v[i - 1] == '地' || v[i - 1] == '着' || v[i - 1] == '了' || v[i - 1] == '的' || v[i - 1]
        == '得') {
        i - 1
    } else {
        i
    };
    let ghost start = views(out@);
    if end >= 2 {
        let cand = string_from(v.as_slice(), end - 2, end);
        if is_likely_name(cand.as_str()) {
            let ghost prev = out@;
            out.push(cand);
            assert(views(out@) =~= views(prev).push(v@.subrange(end - 2, end as int)));
        }
    }
    let ghost mid = views(out@);
    if end >= 3 {
        let cand = string_from(v.as_slice(), end - 3, end);
        if is_likely_name(cand.as_str()) {
            let ghost prev = out@;
            out.push(cand);
            assert(views(out@) =~= views(prev).push(v@.subrange(end - 3, end as int)));
        }
    }
    assert(views(out@) =~= start + names_before(v@, i as int));
}

pub(crate) fn matches_at(v: &Vec<char>, i: usize, w: &Vec<char>) -> (r: bool)
    requires
        i + w@.len() <= v@.len(),
    ensures
        r == (v@.subrange(i as int, i + w@.len()) == w@),
{
    let mut j: usize = 0;
    while j < w.len()
        invariant
            j <= w@.len(),
            i + w@.len() <= v@.len(),
            v@.len() == v.len(),
            forall|k: int| 0 <= k < j ==> v@[i + k] == w@[k],
        decreases w@.len() - j,
    {
        if v[i + j] != w[j] {
            assert(v@.subrange(i as int, i + w@.len())[j as int] != w@[j as int]);
            return false;
        }
        j += 1;
    }
    assert(v@.subrange(i as int, i + w@.len()) =~= w@);
    true
}

/// The names found in a paragraph.
pub fn paragraph_names(para: &str) -> (r: Vec<String>)
    ensures
        views(r@) == para_names(para@),
{
    let v = chars_of(para);
    let mut out: Vec<String> = Vec::new();
    let mut i: usize = 0;
    while i < v.len()
        invariant
            i <= v@.len(),
            v@ == para@,
            views(out@) + scan(v@, i as int) == para_names(para@),
        decreases v@.len() - i,
    {
        let mut found: Option<usize> = None;
        let mut k: usize = 0;
        while k < VERB_COUNT
            invariant_except_break
                found is None,
                verb_from(v@, i as int, 0) == verb_from(v@, i as int, k as int),
            invariant
                k <= VERB_COUNT,
                i < v@.len(),
            ensures
                found matches Some(j) ==> verb_from(v@, i as int, 0) == Some(j as int) && j < VERB_COUNT,
                found is None ==> verb_from(v@, i as int, 0) is None,
            decreases VERB_COUNT - k,
        {
            let w = chars_of(verb_at(k));
            assert(w@ == verb(k as int));
            if w.len() <= v.len() - i && matches_at(&v, i, &w) {
                assert(verb_here(v@, i as int, k as int));
                assert(verb_from(v@, i as int, k as int) == Some(k as int));
                found = Some(k);
                break;
            }
            assert(!verb_here(v@, i as int, k as int));
            assert(verb_from(v@, i as int, k as int) == verb_from(v@, i as int, k + 1));
            k += 1;
        }
        proof { lemma_verb_from_range(v@, i as int, 0); }
        match found {
            Some(k) => {
                let w = chars_of(verb_at(k));
                proof { lemma_verb_nonempty(k as int); }
                let ghost prev = views(out@);
                names_before_exec(&v, i, &mut out);
                assert(w@ == verb(k as int));
                assert(scan(v@, i as int) == names_before(v@, i as int) + scan(v@, i + w@.len()));
                assert(prev + scan(v@, i as int) =~= views(out@) + scan(v@, i + w@.len()));
                i += w.len();
            },
            None => {
                assert(scan(v@, i as int) == scan(v@, i + 1));
                i += 1;
            },
        }
    }
    assert(scan(v@, i as int) == Seq::<Chars>::empty());
    assert(views(out@) =~= para_names(para@));
    out
}

// ── Counting and ranking ─────────────────────────────────────────

/// The names found in the paragraphs, in order.
pub open spec fn paras_names(ps: Seq<Chars>) -> Seq<Chars>
    decreases ps.len(),
{
    if ps.len() == 0 {
        Seq::empty()
    } else {
        paras_names(ps.drop_last()) + para_names(ps.last())
    }
}

/// The names found in the chapters, in order.
pub open spec fn novel_names(cs: Seq<ChapterV>) -> Seq<Chars>
    decreases cs.len(),
{
    if cs.len() == 0 {
        Seq::empty()
    } else {
        novel_names(cs.drop_last()) + paras_names(cs.last().paragraphs)
    }
}

/// One more mention of `m`: its count goes up, or it is added with one.
pub open spec fn bump(t: Seq<(Chars, nat)>, m: Chars) -> Seq<(Chars, nat)> {
    match first_index(keys(t), m) {
        Some(i) => t.update(i, (m, t[i].1 + 1)),
        None => t.push((m, 1nat)),
    }
}

/// Counts of the mentions, names in order of first mention.
pub open spec fn tally_from(t: Seq<(Chars, nat)>, ms: Seq<Chars>) -> Seq<(Chars, nat)>
    decreases ms.len(),
{
    if ms.len() == 0 {
        t
    } else {
        bump(tally_from(t, ms.drop_last()), ms.last())
    }
}

pub(crate) proof fn lemma_tally_concat(t: Seq<(Chars, nat)>, a: Seq<Chars>, b: Seq<Chars>)
    ensures
        tally_from(t, a + b) == tally_from(tally_from(t, a), b),
    decreases b.len(),
{
    if b.len() == 0 {
        assert(a + b =~= a);
    } else {
        assert((a + b).drop_last() =~= a + b.drop_last());
        lemma_tally_concat(t, a, b.drop_last());
    }
}

/// Where a count goes in a list ranked by count, after its equals.
pub open spec fn rank_pos<K>(s: Seq<(K, nat)>, c: nat) -> int
    decreases s.len(),
{
    if s.len() == 0 {
        0
    } else if s[0].1 < c {
        0
    } else {
        1 + rank_pos(s.drop_first(), c)
    }
}

/// Stable ranking by count, highest first.
pub open spec fn rank<K>(s: Seq<(K, nat)>) -> Seq<(K, nat)>
    decreases s.len(),
{
    if s.len() == 0 {
        s
    } else {
        let r = rank(s.drop_last());
        r.insert(rank_pos(r, s.last().1), s.last())
    }
}

proof fn lemma_rank_pos<K>(s: Seq<(K, nat)>, c: nat, k: int)
    requires
        0 <= k <= s.len(),
        forall|j: int| 0 <= j < k ==> #[trigger] s[j].1 >= c,
        k < s.len() ==> s[k].1 < c,
    ensures
        rank_pos(s, c) == k,
    decreases k,
{
    if k > 0 {
        assert forall|j: int| 0 <= j < k - 1 implies #[trigger] s.drop_first()[j].1 >= c by {
            assert(s.drop_first()[j] == s[j + 1]);
        }
        lemma_rank_pos(s.drop_first(), c, k - 1);
    }
}

proof fn lemma_rank_pos_props<K>(r: Seq<(K, nat)>, c: nat)
    ensures
        0 <= rank_pos(r, c) <= r.len(),
        forall|j: int| 0 <= j < rank_pos(r, c) ==> #[trigger] r[j].1 >= c,
        rank_pos(r, c) < r.len() ==> r[rank_pos(r, c)].1 < c,
    decreases r.len(),
{
    if r.len() > 0 && r[0].1 >= c {
        lemma_rank_pos_props(r.drop_first(), c);
        assert forall|j: int| 0 <= j < rank_pos(r, c) implies #[trigger] r[j].1 >= c by {
            if j > 0 {
                assert(r[j] == r.drop_first()[j - 1]);
            }
        }
        if rank_pos(r, c) < r.len() {
            assert(r[rank_pos(r, c)] == r.drop_first()[rank_pos(r, c) - 1]);
        }
    }
}

/// A ranking lists every item once, highest count first.
pub proof fn lemma_rank<K>(s: Seq<(K, nat)>)
    ensures
        rank(s).len() == s.len(),
        forall|i: int, j: int| 0 <= i < j < rank(s).len() ==> rank(s)[i].1 >= rank(s)[j].1,
        forall|x: (K, nat)| rank(s).contains(x) <==> s.contains(x),
    decreases s.len(),
{
    if s.len() > 0 {
        let p = s.drop_last();
        let x = s.last();
        lemma_rank(p);
        let r = rank(p);
        lemma_rank_pos_props(r, x.1);
        let k = rank_pos(r, x.1);
        let q = r.insert(k, x);
        assert(rank(s) == q);
        assert forall|i: int, j: int| 0 <= i < j < q.len() implies q[i].1 >= q[j].1 by {
            if j < k {
                assert(q[i] == r[i] && q[j] == r[j]);
            } else if j == k {
                assert(q[i] == r[i]);
            } else if i < k {
                assert(q[i] == r[i] && q[j] == r[j - 1]);
                if k < r.len() {
                    assert(r[j - 1].1 <= r[k].1);
                }
            } else if i == k {
                assert(q[j] == r[j - 1]);
                assert(r[j - 1].1 <= r[k].1);
            } else {
                assert(q[i] == r[i - 1] && q[j] == r[j - 1]);
            }
        }
        assert forall|y: (K, nat)| q.contains(y) <==> s.contains(y) by {
            if q.contains(y) {
                let i = choose|i: int| 0 <= i < q.len() && q[i] == y;
                if i < k {
                    assert(r[i] == y);
                    assert(p.contains(y));
                    let m = choose|m: int| 0 <= m < p.len() && p[m] == y;
                    assert(s[m] == y);
                } else if i == k {
                    assert(s[s.len() - 1] == y);
                } else {
                    assert(r[i - 1] == y);
                    assert(p.contains(y));
                    let m = choose|m: int| 0 <= m < p.len() && p[m] == y;
                    assert(s[m] == y);
                }
            }
            if s.contains(y) {
                let m = choose|m: int| 0 <= m < s.len() && s[m] == y;
                if m == s.len() - 1 {
                    assert(q[k] == y);
                } else {
                    assert(p[m] == y);
                    assert(p.contains(y));
                    assert(r.contains(y));
                    let i = choose|i: int| 0 <= i < r.len() && r[i] == y;
                    if i < k {
                        assert(q[i] == y);
                    } else {
                        assert(q[i + 1] == y);
                    }
                }
            }
        }
    }
}

/// What dialogue discovery returns: names mentioned at least the given
/// number of times, most mentioned first.
pub proof fn lemma_discover(cs: Seq<ChapterV>, min_mentions: nat)
    ensures
        forall|i: int, j: int|
            0 <= i < j < discover_spec(cs, min_mentions).len() ==> discover_spec(cs, min_mentions)[i].1
                >= discover_spec(cs, min_mentions)[j].1,
        forall|i: int|
            0 <= i < discover_spec(cs, min_mentions).len() ==> #[trigger] discover_spec(cs, min_mentions)[i].1
                >= min_mentions,
{
    let kept = tally_from(Seq::empty(), novel_names(cs)).filter(at_least(min_mentions));
    lemma_rank(kept);
    assert forall|i: int| 0 <= i < discover_spec(cs, min_mentions).len() implies #[trigger] discover_spec(
        cs,
        min_mentions,
    )[i].1 >= min_mentions by {
        let x = rank(kept)[i];
        assert(rank(kept).contains(x));
        assert(kept.contains(x));
        let m = choose|m: int| 0 <= m < kept.len() && kept[m] == x;
        assert(at_least(min_mentions)(kept[m]));
    }
}

pub open spec fn count_views(s: Seq<(String, usize)>) -> Seq<(Chars, nat)> {
    s.map_values(|p: (String, usize)| (p.0@, p.1 as nat))
}

pub open spec fn at_least(min: nat) -> spec_fn((Chars, nat)) -> bool {
    |p: (Chars, nat)| p.1 >= min
}

pub(crate) fn tally_into(counts: &mut Vec<(String, usize)>, ms: &Vec<String>, Ghost(bound): Ghost<nat>)
    requires
        bound + ms@.len() <= usize::MAX,
        forall|i: int| 0 <= i < old(counts)@.len() ==> #[trigger] old(counts)@[i].1 <= bound,
    ensures
        count_views(final(counts)@) == tally_from(count_views(old(counts)@), views(ms@)),
        forall|i: int| 0 <= i < final(counts)@.len() ==> #[trigger] final(counts)@[i].1 <= bound + ms@.len(),
{
    let ghost t0 = count_views(counts@);
    let ghost mv = views(ms@);
    let mut i: usize = 0;
    while i < ms.len()
        invariant
            i <= ms@.len(),
            mv == views(ms@),
            bound + ms@.len() <= usize::MAX,
            count_views(counts@) == tally_from(t0, mv.take(i as int)),
            forall|j: int| 0 <= j < counts@.len() ==> #[trigger] counts@[j].1 <= bound + i,
        decreases ms@.len() - i,
    {
        let m = ms[i].as_str();
        let ghost t = count_views(counts@);
        proof {
            assert(mv.take(i + 1).drop_last() == mv.take(i as int));
            assert(mv.take(i + 1).last() == m@);
            lemma_first_index_spec(keys(t), m@);
        }
        let mut j: usize = 0;
        while j < counts.len() && !str_eq(counts[j].0.as_str(), m)
            invariant
                j <= counts@.len(),
                t == count_views(counts@),
                forall|q: int| 0 <= q < j ==> keys(t)[q] != m@,
            decreases counts@.len() - j,
        {
            assert(keys(t)[j as int] == counts@[j as int].0@);
            j += 1;
        }
        proof {
            if j < counts@.len() {
                assert(keys(t)[j as int] == counts@[j as int].0@);
            }
            lemma_first_index_at(keys(t), m@, j as int);
        }
        if j < counts.len() {
            let c = counts[j].1;
            assert(c <= bound + i);
            counts.set(j, (owned(m), c + 1));
            assert(count_views(counts@) =~= t.update(j as int, (m@, t[j as int].1 + 1)));
        } else {
            counts.push((owned(m), 1));
            assert(count_views(counts@) =~= t.push((m@, 1nat)));
        }
        i += 1;
    }
    assert(mv.take(ms@.len() as int) == mv);
}

pub(crate) fn rank_counts(s: Vec<(String, usize)>) -> (r: Vec<(String, usize)>)
    ensures
        count_views(r@) == rank(count_views(s@)),
{
    let ghost sv = count_views(s@);
    let mut r: Vec<(String, usize)> = Vec::new();
    let mut i: usize = 0;
    while i < s.len()
        invariant
            i <= s@.len(),
            sv == count_views(s@),
            count_views(r@) == rank(sv.take(i as int)),
        decreases s@.len() - i,
    {
        let key = s[i].1;
        let ghost rv = count_views(r@);
        proof {
            assert(sv.take(i + 1).drop_last() == sv.take(i as int));
            assert(sv.take(i + 1).last() == (s@[i as int].0@, key as nat));
        }
        let mut k: usize = 0;
        while k < r.len() && r[k].1 >= key
            invariant
                k <= r@.len(),
                rv == count_views(r@),
                forall|j: int| 0 <= j < k ==> #[trigger] rv[j].1 >= key,
            decreases r@.len() - k,
        {
            k += 1;
        }
        proof {
            lemma_rank_pos(rv, key as nat, k as int);
        }
        r.insert(k, (s[i].0.clone(), key));
        assert(count_views(r@) =~= rv.insert(k as int, (s@[i as int].0@, key as nat)));
        i += 1;
    }
    assert(sv.take(s@.len() as int) == sv);
    r
}

/// The names that the dialogue attributions of the novel mention at
/// least `min_mentions` times, with their counts, most mentioned first
/// (names mentioned equally often in the order of their first mention).
pub open spec fn discover_spec(cs: Seq<ChapterV>, min_mentions: nat) -> Seq<(Chars, nat)> {
    rank(tally_from(Seq::empty(), novel_names(cs)).filter(at_least(min_mentions)))
}

/// Roster of characters and locations by name.
#[derive(Debug)]
pub struct Roster {
    /// Character names with the canonical id of each.
    pub characters: Vec<(String, String)>,
    /// Location names with the canonical id of each.
    pub locations: Vec<(String, String)>,
}

impl Roster {
    /// Discover character names from dialogue attribution patterns
    /// ("XX说道：", "XX问道：").
    pub fn discover_from_dialogue(novel: &Novel, min_mentions: usize) -> (r: Vec<(String, usize)>)
        requires
            novel_names(novel@.chapters).len() <= usize::MAX,
        ensures
            count_views(r@) == discover_spec(novel@.chapters, min_mentions as nat),
    {
        let ghost cs = novel@.chapters;
        let mut counts: Vec<(String, usize)> = Vec::new();
        let mut c: usize = 0;
        while c < novel.chapters.len()
            invariant
                c <= novel.chapters@.len(),
                cs == novel@.chapters,
                novel_names(cs).len() <= usize::MAX,
                count_views(counts@) == tally_from(Seq::empty(), novel_names(cs.take(c as int))),
                forall|j: int| 0 <= j < counts@.len() ==> #[trigger] counts@[j].1 <= novel_names(cs.take(c as int)).len(),
            decreases novel.chapters@.len() - c,
        {
            let ch = &novel.chapters[c];
            let ghost done = novel_names(cs.take(c as int));
            let ghost pv = views(ch.paragraphs@);
            proof {
                assert(cs.take(c + 1).drop_last() == cs.take(c as int));
                assert(cs.take(c + 1).last() == ch@);
                lemma_names_prefix(cs, c + 1);
            }
            let mut p: usize = 0;
            while p < ch.paragraphs.len()
                invariant
                    p <= ch.paragraphs@.len(),
                    pv == views(ch.paragraphs@),
                    pv == cs[c as int].paragraphs,
                    c < cs.len(),
                    done + paras_names(pv) == novel_names(cs.take(c + 1)),
                    novel_names(cs.take(c + 1)).len() <= usize::MAX,
                    count_views(counts@) == tally_from(Seq::empty(), done + paras_names(pv.take(p as int))),
                    forall|j: int| 0 <= j < counts@.len() ==> #[trigger] counts@[j].1 <= (done + paras_names(pv.take(p as int))).len(),
                decreases ch.paragraphs@.len() - p,
            {
                let names = paragraph_names(ch.paragraphs[p].as_str());
                proof {
                    assert(pv.take(p + 1).drop_last() == pv.take(p as int));
                    assert(pv.take(p + 1).last() == ch.paragraphs@[p as int]@);
                    lemma_paras_prefix(pv, p + 1);
                    assert(done + paras_names(pv.take(p + 1)) =~= (done + paras_names(pv.take(p as int))) + views(names@));
                    lemma_tally_concat(Seq::empty(), done + paras_names(pv.take(p as int)), views(names@));
                }
                tally_into(&mut counts, &names, Ghost((done + paras_names(pv.take(p as int))).len()));
                p += 1;
            }
            assert(pv.take(ch.paragraphs@.len() as int) == pv);
            c += 1;
        }
        assert(cs.take(novel.chapters@.len() as int) == cs);
        let ghost all = count_views(counts@);
        let mut kept: Vec<(String, usize)> = Vec::new();
        let mut i: usize = 0;
        while i < counts.len()
            invariant
                i <= counts@.len(),
                all == count_views(counts@),
                count_views(kept@) == all.take(i as int).filter(at_least(min_mentions as nat)),
            decreases counts@.len() - i,
        {
            proof {
                assert(all.take(i + 1).drop_last() == all.take(i as int));
                assert(all.take(i + 1).last() == all[i as int]);
                assert(all.take(i + 1) == all.take(i as int).push(all[i as int]));
                all.take(i as int).lemma_filter_push(all[i as int], at_least(min_mentions as nat));
            }
            if counts[i].1 >= min_mentions {
                let ghost prev = kept@;
                kept.push((counts[i].0.clone(), counts[i].1));
                assert(count_views(kept@) =~= count_views(prev).push(all[i as int]));
            }
            i += 1;
        }
        assert(all.take(counts@.len() as int) == all);
        rank_counts(kept)
    }
}

proof fn lemma_names_prefix(cs: Seq<ChapterV>, c: int)
    requires
        0 <= c <= cs.len(),
    ensures
        novel_names(cs.take(c)).len() <= novel_names(cs).len(),
    decreases cs.len() - c,
{
    if c < cs.len() {
        lemma_names_prefix(cs, c + 1);
        assert(cs.take(c + 1).drop_last() == cs.take(c));
    } else {
        assert(cs.take(c) == cs);
    }
}

proof fn lemma_paras_prefix(ps: Seq<Chars>, p: int)
    requires
        0 <= p <= ps.len(),
    ensures
        paras_names(ps.take(p)).len() <= paras_names(ps).len(),
    decreases ps.len() - p,
{
    if p < ps.len() {
        lemma_paras_prefix(ps, p + 1);
        assert(ps.take(p + 1).drop_last() == ps.take(p));
    } else {
        assert(ps.take(p) == ps);
    }
}

// ── Roster ───────────────────────────────────────────────────────

pub open spec fn entry_views(s: Seq<(String, String)>) -> Seq<(Chars, Chars)> {
    s.map_values(|p: (String, String)| (p.0@, p.1@))
}

/// `name` now stands for `id`: its entry is replaced, or one is added.
pub open spec fn assign_one(t: Seq<(Chars, Chars)>, name: Chars, id: Chars) -> Seq<(Chars, Chars)> {
    match first_index(keys(t), name) {
        Some(i) => t.update(i, (name, id)),
        None => t.push((name, id)),
    }
}

/// Each of the names, in turn, stands for `id`.
pub open spec fn assign(t: Seq<(Chars, Chars)>, names: Seq<Chars>, id: Chars) -> Seq<(Chars, Chars)>
    decreases names.len(),
{
    if names.len() == 0 {
        t
    } else {
        assign_one(assign(t, names.drop_last(), id), names.last(), id)
    }
}

/// The id a name stands for.
pub open spec fn lookup_name(t: Seq<(Chars, Chars)>, name: Chars) -> Option<Chars> {
    match first_index(keys(t), name) {
        Some(i) => Some(t[i].1),
        None => None,
    }
}

proof fn lemma_assign_one(t: Seq<(Chars, Chars)>, name: Chars, id: Chars, other: Chars)
    ensures
        lookup_name(assign_one(t, name, id), name) == Some(id),
        other != name ==> lookup_name(assign_one(t, name, id), other) == lookup_name(t, other),
{
    let q = assign_one(t, name, id);
    lemma_first_index_spec(keys(t), name);
    lemma_first_index_spec(keys(t), other);
    match first_index(keys(t), name) {
        Some(i) => {
            assert(keys(q) =~= keys(t));
        },
        None => {
            assert(keys(q) =~= keys(t).push(name));
            lemma_first_index_at(keys(q), name, keys(t).len() as int);
            if other != name {
                match first_index(keys(t), other) {
                    Some(j) => {
                        lemma_first_index_at(keys(q), other, j);
                    },
                    None => {
                        lemma_first_index_at(keys(q), other, keys(q).len() as int);
                    },
                }
            }
        },
    }
}

/// After the names are given to `id`, each of them stands for `id`, and
/// every other name keeps what it stood for.
pub proof fn lemma_assign(t: Seq<(Chars, Chars)>, names: Seq<Chars>, id: Chars, other: Chars)
    ensures
        forall|k: int| 0 <= k < names.len() ==> lookup_name(assign(t, names, id), #[trigger] names[k]) == Some(id),
        !names.contains(other) ==> lookup_name(assign(t, names, id), other) == lookup_name(t, other),
    decreases names.len(),
{
    if names.len() > 0 {
        let p = names.drop_last();
        let n = names.last();
        let before = assign(t, p, id);
        lemma_assign(t, p, id, other);
        lemma_assign_one(before, n, id, other);
        assert forall|k: int| 0 <= k < names.len() implies lookup_name(assign(t, names, id), #[trigger] names[k]) == Some(id) by {
            lemma_assign_one(before, n, id, names[k]);
            if k < p.len() {
                assert(p[k] == names[k]);
                lemma_assign(t, p, id, names[k]);
            }
        }
        if !names.contains(other) {
            assert(names[names.len() - 1] == n);
            if p.contains(other) {
                let m = choose|m: int| 0 <= m < p.len() && p[m] == other;
                assert(names[m] == other);
            }
        }
    }
}

pub open spec fn str_views(s: Seq<&str>) -> Seq<Chars> {
    s.map_values(|x: &str| x@)
}

fn assign_names(entries: &mut Vec<(String, String)>, id: &str, names: &[&str])
    ensures
        entry_views(final(entries)@) == assign(entry_views(old(entries)@), str_views(names@), id@),
{
    let ghost t0 = entry_views(entries@);
    let ghost nv = str_views(names@);
    let mut i: usize = 0;
    while i < names.len()
        invariant
            i <= names@.len(),
            nv == str_views(names@),
            entry_views(entries@) == assign(t0, nv.take(i as int), id@),
        decreases names@.len() - i,
    {
        let name = names[i];
        let ghost t = entry_views(entries@);
        proof {
            assert(nv.take(i + 1).drop_last() == nv.take(i as int));
            assert(nv.take(i + 1).last() == name@);
        }
        let mut j: usize = 0;
        while j < entries.len() && !str_eq(entries[j].0.as_str(), name)
            invariant
                j <= entries@.len(),
                t == entry_views(entries@),
                forall|q: int| 0 <= q < j ==> keys(t)[q] != name@,
            decreases entries@.len() - j,
        {
            assert(keys(t)[j as int] == entries@[j as int].0@);
            j += 1;
        }
        proof {
            if j < entries@.len() {
                assert(keys(t)[j as int] == entries@[j as int].0@);
            }
            lemma_first_index_at(keys(t), name@, j as int);
        }
        if j < entries.len() {
            entries.set(j, (owned(name), owned(id)));
            assert(entry_views(entries@) =~= t.update(j as int, (name@, id@)));
        } else {
            entries.push((owned(name), owned(id)));
            assert(entry_views(entries@) =~= t.push((name@, id@)));
        }
        i += 1;
    }
    assert(nv.take(names@.len() as int) == nv);
}

impl Roster {
    pub fn new() -> (r: Roster)
        ensures
            r.characters@.len() == 0,
            r.locations@.len() == 0,
    {
        Roster { characters: Vec::new(), locations: Vec::new() }
    }

    /// Each of the names now stands for the character `id`.
    pub fn add_character(&mut self, id: &str, names: &[&str])
        ensures
            entry_views(final(self).characters@) == assign(entry_views(old(self).characters@), str_views(names@), id@),
            final(self).locations == old(self).locations,
    {
        assign_names(&mut self.characters, id, names);
    }

    /// Each of the names now stands for the location `id`.
    pub fn add_location(&mut self, id: &str, names: &[&str])
        ensures
            entry_views(final(self).locations@) == assign(entry_views(old(self).locations@), str_views(names@), id@),
            final(self).characters == old(self).characters,
    {
        assign_names(&mut self.locations, id, names);
    }
}

// ── Co-occurrence ────────────────────────────────────────────────

/// How often characters appear, alone and in pairs, in the same
/// paragraph; pairs and characters in ascending order.
#[derive(Debug)]
pub struct CooccurrenceMatrix {
    pub pairs: Vec<((String, String), u32)>,
    pub counts: Vec<(String, u32)>,
}

pub open spec fn pair_count_views(s: Seq<((String, String), u32)>) -> Seq<((Chars, Chars), nat)> {
    s.map_values(|p: ((String, String), u32)| ((p.0.0@, p.0.1@), p.1 as nat))
}

pub open spec fn char_count_views(s: Seq<(String, u32)>) -> Seq<(Chars, nat)> {
    s.map_values(|p: (String, u32)| (p.0@, p.1 as nat))
}

/// The first `n` of a ranking.
pub open spec fn top<K>(s: Seq<(K, nat)>, n: nat) -> Seq<(K, nat)> {
    if n < s.len() {
        s.take(n as int)
    } else {
        s
    }
}

impl CooccurrenceMatrix {
    /// The `n` most frequent pairs, most frequent first (equal counts in
    /// the pairs' own order).
    pub fn top_pairs(&self, n: usize) -> (r: Vec<((String, String), u32)>)
        ensures
            pair_count_views(r@) == top(rank(pair_count_views(self.pairs@)), n as nat),
    {
        let ghost sv = pair_count_views(self.pairs@);
        let mut r: Vec<((String, String), u32)> = Vec::new();
        let mut i: usize = 0;
        while i < self.pairs.len()
            invariant
                i <= self.pairs@.len(),
                sv == pair_count_views(self.pairs@),
                pair_count_views(r@) == rank(sv.take(i as int)),
            decreases self.pairs@.len() - i,
        {
            let key = self.pairs[i].1;
            let ghost rv = pair_count_views(r@);
            proof {
                assert(sv.take(i + 1).drop_last() == sv.take(i as int));
                assert(sv.take(i + 1).last() == sv[i as int]);
            }
            let mut k: usize = 0;
            while k < r.len() && r[k].1 >= key
                invariant
                    k <= r@.len(),
                    rv == pair_count_views(r@),
                    forall|j: int| 0 <= j < k ==> #[trigger] rv[j].1 >= key,
                decreases r@.len() - k,
            {
                k += 1;
            }
            proof {
                lemma_rank_pos(rv, key as nat, k as int);
            }
            let item = ((self.pairs[i].0.0.clone(), self.pairs[i].0.1.clone()), key);
            r.insert(k, item);
            assert(pair_count_views(r@) =~= rv.insert(k as int, sv[i as int]));
            i += 1;
        }
        assert(sv.take(self.pairs@.len() as int) == sv);
        r.truncate(n);
        assert(pair_count_views(r@) =~= top(rank(sv), n as nat));
        r
    }

    /// The `n` most frequent characters, most frequent first (equal counts
    /// in the characters' own order).
    pub fn top_characters(&self, n: usize) -> (r: Vec<(String, u32)>)
        ensures
            char_count_views(r@) == top(rank(char_count_views(self.counts@)), n as nat),
    {
        let ghost sv = char_count_views(self.counts@);
        let mut r: Vec<(String, u32)> = Vec::new();
        let mut i: usize = 0;
        while i < self.counts.len()
            invariant
                i <= self.counts@.len(),
                sv == char_count_views(self.counts@),
                char_count_views(r@) == rank(sv.take(i as int)),
            decreases self.counts@.len() - i,
        {
            let key = self.counts[i].1;
            let ghost rv = char_count_views(r@);
            proof {
                assert(sv.take(i + 1).drop_last() == sv.take(i as int));
                assert(sv.take(i + 1).last() == sv[i as int]);
            }
            let mut k: usize = 0;
            while k < r.len() && r[k].1 >= key
                invariant
                    k <= r@.len(),
                    rv == char_count_views(r@),
                    forall|j: int| 0 <= j < k ==> #[trigger] rv[j].1 >= key,
                decreases r@.len() - k,
            {
                k += 1;
            }
            proof {
                lemma_rank_pos(rv, key as nat, k as int);
            }
            r.insert(k, (self.counts[i].0.clone(), key));
            assert(char_count_views(r@) =~= rv.insert(k as int, sv[i as int]));
            i += 1;
        }
        assert(sv.take(self.counts@.len() as int) == sv);
        r.truncate(n);
        assert(char_count_views(r@) =~= top(rank(sv), n as nat));
        r
    }
}

} // verus!
