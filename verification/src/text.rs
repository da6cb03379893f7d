//! Character-level string helpers shared by the parsers and renderers.
//!
//! Strings are specified by their character sequences (`s@: Seq<char>`).
use vstd::prelude::*;
use vstd::std_specs::iter::IteratorSpec;

verus! {

broadcast use vstd::string::group_string_axioms;

pub type Chars = Seq<char>;

// ── Basic conversions ────────────────────────────────────────────

/// The characters of a string slice, in order.
pub fn chars_of(s: &str) -> (v: Vec<char>)
    ensures
        v@ == s@,
{
    let mut it = s.chars();
    let mut v: Vec<char> = Vec::new();
    let ghost whole = s@;
    assert(IteratorSpec::remaining(&it) == s@);
    loop
        invariant
            whole == s@,
            v@ + IteratorSpec::remaining(&it) == whole,
            it.obeys_prophetic_iter_laws(),
            IteratorSpec::decrease(&it) is Some,
        ensures
            v@ == whole,
        decreases IteratorSpec::decrease(&it)->0,
    {
        let ghost before = it;
        match it.next() {
            Some(c) => {
                assert(IteratorSpec::remaining(&before) == seq![c] + IteratorSpec::remaining(&it));
                v.push(c);
            },
            None => {
                assert(v@ + IteratorSpec::remaining(&it) == v@);
                break ;
            },
        }
    }
    v
}

/// Appends one character to a string (`String::push`).
#[verifier::external_body]
pub fn push_char(s: &mut String, c: char)
    ensures
        final(s)@ == old(s)@.push(c),
{
    s.push(c);
}

/// Appends a string slice to a string.
pub fn push_str(s: &mut String, t: &str)
    ensures
        final(s)@ == old(s)@ + t@,
{
    s.append(t);
}

/// Builds a string from a run of characters.
pub fn string_from(v: &[char], lo: usize, hi: usize) -> (s: String)
    requires
        lo <= hi <= v@.len(),
    ensures
        s@ == v@.subrange(lo as int, hi as int),
{
    let mut s = String::new();
    let mut i = lo;
    while i < hi
        invariant
            lo <= i <= hi <= v@.len(),
            s@ == v@.subrange(lo as int, i as int),
        decreases hi - i,
    {
        push_char(&mut s, v[i]);
        assert(v@.subrange(lo as int, i + 1) == v@.subrange(lo as int, i as int).push(v@[i as int]));
        i += 1;
    }
    s
}

/// A fresh copy of a string slice.
pub fn owned(s: &str) -> (r: String)
    ensures
        r@ == s@,
{
    s.to_owned()
}

/// Equality of two string slices by their characters.
pub fn str_eq(a: &str, b: &str) -> (r: bool)
    ensures
        r == (a@ == b@),
{
    a.to_owned() == b.to_owned()
}

/// The character views of a vector of strings.
pub open spec fn views(v: Seq<String>) -> Seq<Chars> {
    v.map_values(|s: String| s@)
}

/// Whether a vector of strings holds one equal to `x`.
pub fn contains_str(v: &Vec<String>, x: &str) -> (r: bool)
    ensures
        r == views(v@).contains(x@),
{
    let mut i: usize = 0;
    while i < v.len()
        invariant
            i <= v@.len(),
            forall|j: int| 0 <= j < i ==> v@[j]@ != x@,
        decreases v@.len() - i,
    {
        if str_eq(v[i].as_str(), x) {
            assert(views(v@)[i as int] == x@);
            return true;
        }
        i += 1;
    }
    assert(!views(v@).contains(x@)) by {
        if views(v@).contains(x@) {
            let k = choose|k: int| 0 <= k < views(v@).len() && views(v@)[k] == x@;
            assert(v@[k]@ == x@);
        }
    }
    false
}

/// A copy of a vector of strings.
pub fn clone_strs(v: &Vec<String>) -> (r: Vec<String>)
    ensures
        r@ == v@,
{
    let mut r: Vec<String> = Vec::new();
    let mut i: usize = 0;
    while i < v.len()
        invariant
            i <= v@.len(),
            r@ == v@.take(i as int),
        decreases v@.len() - i,
    {
        r.push(v[i].clone());
        assert(v@.take(i + 1) == v@.take(i as int).push(v@[i as int]));
        i += 1;
    }
    assert(v@.take(v@.len() as int) == v@);
    r
}

/// A copy of an optional string.
pub fn clone_opt(o: &Option<String>) -> (r: Option<String>)
    ensures
        r == *o,
{
    match o {
        Some(s) => Some(s.clone()),
        None => None,
    }
}

// ── Character classes ────────────────────────────────────────────

pub open spec fn is_ascii_alnum(c: char) -> bool {
    ('0' <= c && c <= '9') || ('a' <= c && c <= 'z') || ('A' <= c && c <= 'Z')
}

/// `char::is_ascii_alphanumeric`.
pub fn ascii_alnum(c: char) -> (r: bool)
    ensures
        r == is_ascii_alnum(c),
{
    ('0' <= c && c <= '9') || ('a' <= c && c <= 'z') || ('A' <= c && c <= 'Z')
}

/// A character allowed in a bare Datalog identifier.
pub open spec fn is_ident_char(c: char) -> bool {
    is_ascii_alnum(c) || c == '_'
}

/// Every character is an identifier character.
pub open spec fn is_ident(s: Chars) -> bool {
    forall|i: int| 0 <= i < s.len() ==> is_ident_char(#[trigger] s[i])
}

/// Unicode `White_Space`, as `char::is_whitespace` defines it.
pub open spec fn is_ws(c: char) -> bool {
    c == ' ' || ('\t' <= c && c <= '\r') || c == '\u{85}' || c == '\u{a0}' || c == '\u{1680}'
        || ('\u{2000}' <= c && c <= '\u{200a}') || c == '\u{2028}' || c == '\u{2029}' || c
        == '\u{202f}' || c == '\u{205f}' || c == '\u{3000}'
}

pub fn whitespace(c: char) -> (r: bool)
    ensures
        r == is_ws(c),
{
    c == ' ' || ('\t' <= c && c <= '\r') || c == '\u{85}' || c == '\u{a0}' || c == '\u{1680}' || (
    '\u{2000}' <= c && c <= '\u{200a}') || c == '\u{2028}' || c == '\u{2029}' || c == '\u{202f}'
        || c == '\u{205f}' || c == '\u{3000}'
}

// ── Datalog quoting ──────────────────────────────────────────────

/// Every `"` preceded by a backslash.
pub open spec fn escape_quotes(s: Chars) -> Chars
    decreases s.len(),
{
    if s.len() == 0 {
        s
    } else {
        escape_quotes(s.drop_last()) + if s.last() == '"' {
            seq!['\\', '"']
        } else {
            seq![s.last()]
        }
    }
}

/// A value as it stands in a Datalog fact: bare when it is an identifier,
/// otherwise in double quotes with inner quotes escaped.
pub open spec fn quoted(s: Chars) -> Chars {
    if is_ident(s) {
        s
    } else {
        seq!['"'] + escape_quotes(s) + seq!['"']
    }
}

/// Appends `escape_quotes(v[lo..hi])`.
pub fn push_escaped(out: &mut String, v: &Vec<char>)
    ensures
        final(out)@ == old(out)@ + escape_quotes(v@),
{
    let ghost start = out@;
    let mut i: usize = 0;
    while i < v.len()
        invariant
            i <= v@.len(),
            out@ == start + escape_quotes(v@.take(i as int)),
        decreases v@.len() - i,
    {
        let c = v[i];
        assert(v@.take(i + 1).drop_last() == v@.take(i as int));
        if c == '"' {
            push_char(out, '\\');
            push_char(out, '"');
        } else {
            push_char(out, c);
        }
        assert(out@ == start + escape_quotes(v@.take(i + 1)));
        i += 1;
    }
    assert(v@.take(v@.len() as int) == v@);
}

/// Whether a run of characters is a bare identifier.
pub fn chars_ident(v: &Vec<char>) -> (r: bool)
    ensures
        r == is_ident(v@),
{
    let mut i: usize = 0;
    while i < v.len()
        invariant
            i <= v@.len(),
            forall|j: int| 0 <= j < i ==> is_ident_char(#[trigger] v@[j]),
        decreases v@.len() - i,
    {
        if !(ascii_alnum(v[i]) || v[i] == '_') {
            return false;
        }
        i += 1;
    }
    true
}

/// Appends the Datalog form of `s` (see `quoted`).
pub fn push_quoted(out: &mut String, s: &str)
    ensures
        final(out)@ == old(out)@ + quoted(s@),
{
    let v = chars_of(s);
    if chars_ident(&v) {
        push_str(out, s);
    } else {
        push_char(out, '"');
        push_escaped(out, &v);
        push_char(out, '"');
        assert(out@ == old(out)@ + quoted(s@));
    }
}

/// The Datalog form of a value.
pub fn quote(s: &str) -> (r: String)
    ensures
        r@ == quoted(s@),
{
    let mut r = String::new();
    push_quoted(&mut r, s);
    assert(r@ == quoted(s@));
    r
}

/// An identifier is its own Datalog form.
pub proof fn lemma_quote_ident(s: Chars)
    requires
        is_ident(s),
    ensures
        quoted(s) == s,
{
}

// ── Decimal numerals ─────────────────────────────────────────────

pub open spec fn digit(d: nat) -> char {
    if d == 0 {
        '0'
    } else if d == 1 {
        '1'
    } else if d == 2 {
        '2'
    } else if d == 3 {
        '3'
    } else if d == 4 {
        '4'
    } else if d == 5 {
        '5'
    } else if d == 6 {
        '6'
    } else if d == 7 {
        '7'
    } else if d == 8 {
        '8'
    } else {
        '9'
    }
}

/// Decimal digits of a natural number, most significant first.
pub open spec fn dec(n: nat) -> Chars
    decreases n,
{
    if n < 10 {
        seq![digit(n)]
    } else {
        dec(n / 10).push(digit(n % 10))
    }
}

/// Decimal form of an integer, with a leading `-` when negative.
pub open spec fn int_dec(i: int) -> Chars {
    if i < 0 {
        seq!['-'] + dec((-i) as nat)
    } else {
        dec(i as nat)
    }
}

fn digit_char(d: u64) -> (c: char)
    requires
        d < 10,
    ensures
        c == digit(d as nat),
{
    if d == 0 {
        '0'
    } else if d == 1 {
        '1'
    } else if d == 2 {
        '2'
    } else if d == 3 {
        '3'
    } else if d == 4 {
        '4'
    } else if d == 5 {
        '5'
    } else if d == 6 {
        '6'
    } else if d == 7 {
        '7'
    } else if d == 8 {
        '8'
    } else {
        '9'
    }
}

/// Appends the decimal digits of `n`.
pub fn push_dec(s: &mut String, n: u64)
    ensures
        final(s)@ == old(s)@ + dec(n as nat),
    decreases n,
{
    if n >= 10 {
        push_dec(s, n / 10);
    }
    push_char(s, digit_char(n % 10));
    assert(s@ == old(s)@ + dec(n as nat));
}

/// Appends the decimal digits of a wide number.
pub fn push_dec_wide(s: &mut String, n: u128)
    ensures
        final(s)@ == old(s)@ + dec(n as nat),
    decreases n,
{
    if n >= 10 {
        push_dec_wide(s, n / 10);
    }
    push_char(s, digit_char((n % 10) as u64));
    assert(s@ == old(s)@ + dec(n as nat));
}

/// Appends the decimal form of a signed number.
pub fn push_int(s: &mut String, n: i64)
    ensures
        final(s)@ == old(s)@ + int_dec(n as int),
{
    if n < 0 {
        push_char(s, '-');
        let m: u64 = (-(n as i128)) as u64;
        push_dec(s, m);
        assert(s@ == old(s)@ + int_dec(n as int));
    } else {
        push_dec(s, n as u64);
    }
}

/// `n` in decimal, left-padded with zeros to at least three digits.
pub open spec fn dec3(n: nat) -> Chars {
    if n < 10 {
        seq!['0', '0'] + dec(n)
    } else if n < 100 {
        seq!['0'] + dec(n)
    } else {
        dec(n)
    }
}

pub fn push_dec3(s: &mut String, n: u64)
    ensures
        final(s)@ == old(s)@ + dec3(n as nat),
{
    if n < 10 {
        push_char(s, '0');
        push_char(s, '0');
    } else if n < 100 {
        push_char(s, '0');
    }
    push_dec(s, n);
    assert(s@ == old(s)@ + dec3(n as nat));
}

// ── Trimming and searching ───────────────────────────────────────

pub open spec fn ltrim(s: Chars) -> Chars
    decreases s.len(),
{
    if s.len() > 0 && is_ws(s[0]) {
        ltrim(s.drop_first())
    } else {
        s
    }
}

pub open spec fn rtrim(s: Chars) -> Chars
    decreases s.len(),
{
    if s.len() > 0 && is_ws(s.last()) {
        rtrim(s.drop_last())
    } else {
        s
    }
}

/// `str::trim`: leading and trailing whitespace removed.
pub open spec fn trim(s: Chars) -> Chars {
    rtrim(ltrim(s))
}

/// Bounds `[lo, hi)` of the trimmed part of `v`.
pub fn trim_bounds(v: &Vec<char>) -> (r: (usize, usize))
    ensures
        r.0 <= r.1 <= v@.len(),
        v@.subrange(r.0 as int, r.1 as int) == trim(v@),
{
    let n = v.len();
    let mut lo: usize = 0;
    assert(v@.subrange(0, n as int) == v@);
    while lo < n && whitespace(v[lo])
        invariant
            lo <= n == v@.len(),
            ltrim(v@) == ltrim(v@.subrange(lo as int, n as int)),
        decreases n - lo,
    {
        assert(v@.subrange(lo as int, n as int).drop_first() == v@.subrange(lo + 1, n as int));
        lo += 1;
    }
    assert(ltrim(v@) == v@.subrange(lo as int, n as int));
    let mut hi: usize = n;
    while hi > lo && whitespace(v[hi - 1])
        invariant
            lo <= hi <= n == v@.len(),
            ltrim(v@) == v@.subrange(lo as int, n as int),
            trim(v@) == rtrim(v@.subrange(lo as int, hi as int)),
        decreases hi,
    {
        assert(v@.subrange(lo as int, hi as int).drop_last() == v@.subrange(lo as int, hi - 1));
        hi -= 1;
    }
    (lo, hi)
}

/// Index of the first occurrence of `c` in `s`, if any.
pub open spec fn find(s: Chars, c: char) -> Option<int>
    decreases s.len(),
{
    if s.len() == 0 {
        None
    } else if s[0] == c {
        Some(0)
    } else {
        match find(s.drop_first(), c) {
            Some(i) => Some(i + 1),
            None => None,
        }
    }
}

/// Index of the last occurrence of `c` in `s`, if any.
pub open spec fn rfind(s: Chars, c: char) -> Option<int>
    decreases s.len(),
{
    if s.len() == 0 {
        None
    } else if s.last() == c {
        Some(s.len() - 1)
    } else {
        rfind(s.drop_last(), c)
    }
}

pub proof fn lemma_find(s: Chars, c: char)
    ensures
        find(s, c) matches Some(i) ==> 0 <= i < s.len() && s[i] == c && forall|j: int|
            0 <= j < i ==> s[j] != c,
        find(s, c) is None ==> forall|j: int| 0 <= j < s.len() ==> s[j] != c,
    decreases s.len(),
{
    if s.len() > 0 {
        lemma_find(s.drop_first(), c);
        if s[0] != c {
            assert forall|j: int| 0 < j < s.len() implies s[j] == s.drop_first()[j - 1] by {}
        }
    }
}

pub proof fn lemma_find_char(s: Chars, c: char, i: int)
    requires
        0 <= i <= s.len(),
        forall|j: int| 0 <= j < i ==> s[j] != c,
    ensures
        i < s.len() && s[i] == c ==> find(s, c) == Some(i),
        i == s.len() ==> find(s, c) is None,
    decreases s.len(),
{
    if s.len() > 0 && s[0] != c && i > 0 {
        assert forall|j: int| 0 <= j < i - 1 implies s.drop_first()[j] != c by {
            assert(s.drop_first()[j] == s[j + 1]);
        }
        lemma_find_char(s.drop_first(), c, i - 1);
    }
}

pub proof fn lemma_rfind_char(s: Chars, c: char, i: int)
    requires
        -1 <= i < s.len(),
        forall|j: int| i < j < s.len() ==> s[j] != c,
    ensures
        i >= 0 && s[i] == c ==> rfind(s, c) == Some(i),
        i == -1 ==> rfind(s, c) is None,
    decreases s.len(),
{
    if s.len() > 0 && s.last() != c && i < s.len() - 1 {
        lemma_rfind_char(s.drop_last(), c, i);
    }
}

/// First index of `c` in `v[lo..hi]`, relative to `lo`.
pub fn find_in(v: &Vec<char>, lo: usize, hi: usize, c: char) -> (r: Option<usize>)
    requires
        lo <= hi <= v@.len(),
    ensures
        r matches Some(i) ==> find(v@.subrange(lo as int, hi as int), c) == Some(i as int) && i < hi - lo
            && v@[lo + i] == c,
        r is None ==> find(v@.subrange(lo as int, hi as int), c) is None,
{
    let ghost s = v@.subrange(lo as int, hi as int);
    let mut i = lo;
    while i < hi
        invariant
            lo <= i <= hi <= v@.len(),
            s == v@.subrange(lo as int, hi as int),
            forall|j: int| 0 <= j < i - lo ==> s[j] != c,
        decreases hi - i,
    {
        if v[i] == c {
            proof { lemma_find_char(s, c, i - lo); }
            return Some(i - lo);
        }
        i += 1;
    }
    proof { lemma_find_char(s, c, (hi - lo) as int); }
    None
}

/// Last index of `c` in `v[lo..hi]`, relative to `lo`.
pub fn rfind_in(v: &Vec<char>, lo: usize, hi: usize, c: char) -> (r: Option<usize>)
    requires
        lo <= hi <= v@.len(),
    ensures
        r matches Some(i) ==> rfind(v@.subrange(lo as int, hi as int), c) == Some(i as int) && i < hi - lo
            && v@[lo + i] == c,
        r is None ==> rfind(v@.subrange(lo as int, hi as int), c) is None,
{
    let ghost s = v@.subrange(lo as int, hi as int);
    let mut i = hi;
    while i > lo
        invariant
            lo <= i <= hi <= v@.len(),
            s == v@.subrange(lo as int, hi as int),
            forall|j: int| i - lo <= j < hi - lo ==> s[j] != c,
        decreases i,
    {
        if v[i - 1] == c {
            proof { lemma_rfind_char(s, c, i - 1 - lo); }
            return Some(i - 1 - lo);
        }
        i -= 1;
    }
    proof { lemma_rfind_char(s, c, -1); }
    None
}

/// Whether `p` is a prefix of `s`.
pub open spec fn starts(s: Chars, p: Chars) -> bool {
    p.len() <= s.len() && s.take(p.len() as int) == p
}

/// Whether `p` is a suffix of `s`.
pub open spec fn ends(s: Chars, p: Chars) -> bool {
    p.len() <= s.len() && s.skip(s.len() - p.len()) == p
}

/// Whether `v[lo..hi]` starts with `p`.
pub fn starts_at(v: &Vec<char>, lo: usize, hi: usize, p: &str) -> (r: bool)
    requires
        lo <= hi <= v@.len(),
    ensures
        r == starts(v@.subrange(lo as int, hi as int), p@),
{
    let pv = chars_of(p);
    if pv.len() > hi - lo {
        return false;
    }
    let mut i: usize = 0;
    while i < pv.len()
        invariant
            pv@ == p@,
            lo <= hi <= v@.len(),
            pv@.len() <= hi - lo,
            i <= pv@.len(),
            forall|j: int| 0 <= j < i ==> v@[lo + j] == pv@[j],
        decreases pv@.len() - i,
    {
        if v[lo + i] != pv[i] {
            assert(v@.subrange(lo as int, hi as int).take(pv@.len() as int)[i as int] != pv@[i as int]);
            return false;
        }
        i += 1;
    }
    assert(v@.subrange(lo as int, hi as int).take(pv@.len() as int) == pv@);
    true
}

/// Whether `v[lo..hi]` ends with `p`.
pub fn ends_at(v: &Vec<char>, lo: usize, hi: usize, p: &str) -> (r: bool)
    requires
        lo <= hi <= v@.len(),
    ensures
        r == ends(v@.subrange(lo as int, hi as int), p@),
{
    let pv = chars_of(p);
    if pv.len() > hi - lo {
        return false;
    }
    let base = hi - pv.len();
    let mut i: usize = 0;
    while i < pv.len()
        invariant
            pv@ == p@,
            lo <= base <= hi <= v@.len(),
            base == hi - pv@.len(),
            i <= pv@.len(),
            forall|j: int| 0 <= j < i ==> v@[base + j] == pv@[j],
        decreases pv@.len() - i,
    {
        if v[base + i] != pv[i] {
            let ghost s = v@.subrange(lo as int, hi as int);
            assert(s.skip(s.len() - pv@.len())[i as int] != pv@[i as int]);
            return false;
        }
        i += 1;
    }
    let ghost s = v@.subrange(lo as int, hi as int);
    assert(s.skip(s.len() - pv@.len()) == pv@);
    true
}

/// Whether a string slice starts with `p`.
pub fn str_starts(s: &str, p: &str) -> (r: bool)
    ensures
        r == starts(s@, p@),
{
    let v = chars_of(s);
    let r = starts_at(&v, 0, v.len(), p);
    assert(v@.subrange(0, v@.len() as int) == v@);
    r
}

/// Whether `needle` occurs in `s` as a contiguous run.
pub open spec fn has_infix(s: Chars, needle: Chars) -> bool {
    exists|i: int| 0 <= i <= s.len() - needle.len() && #[trigger] s.subrange(i, i + needle.len()) == needle
}

/// Whether `needle` occurs in `v` as a contiguous run.
pub fn contains_run(v: &Vec<char>, needle: &str) -> (r: bool)
    ensures
        r == has_infix(v@, needle@),
{
    let n = v.len();
    let m = chars_of(needle).len();
    if m > n {
        return false;
    }
    if m == 0 {
        assert(v@.subrange(0, 0int + needle@.len()) =~= needle@);
        return true;
    }
    let mut i: usize = 0;
    while i <= n - m
        invariant
            m == needle@.len(),
            0 < m <= n,
            n == v@.len(),
            i <= n - m + 1,
            forall|k: int| 0 <= k < i ==> #[trigger] v@.subrange(k, k + m) != needle@,
        decreases n - m + 1 - i,
    {
        let hit = starts_at(v, i, n, needle);
        assert(v@.subrange(i as int, n as int).take(m as int) =~= v@.subrange(i as int, i + m));
        if hit {
            return true;
        }
        i += 1;
    }
    false
}

/// `s` is `prefix` followed by something and a closing `)` (a call such
/// as `has_trait(x)`): the text between them, if so.
pub open spec fn unwrap_call(s: Chars, prefix: Chars) -> Option<Chars> {
    if starts(s, prefix) && s.len() >= prefix.len() + 1 && s.last() == ')' {
        Some(s.subrange(prefix.len() as int, s.len() - 1))
    } else {
        None
    }
}

/// `s` starts with `prefix` and ends with `)`.
pub open spec fn is_call(s: Chars, prefix: Chars) -> bool {
    starts(s, prefix) && s.len() > 0 && s.last() == ')'
}

/// Bounds of the argument text of a call `prefix...)` in `v[lo..hi]`.
pub fn call_inner(v: &Vec<char>, lo: usize, hi: usize, prefix: &str) -> (r: Option<(usize, usize)>)
    requires
        lo <= hi <= v@.len(),
    ensures
        match r {
            Some((a, b)) => lo <= a <= b <= hi && unwrap_call(v@.subrange(lo as int, hi as int), prefix@)
                == Some(v@.subrange(a as int, b as int)),
            None => unwrap_call(v@.subrange(lo as int, hi as int), prefix@) is None,
        },
{
    let ghost s = v@.subrange(lo as int, hi as int);
    let pv = chars_of(prefix);
    if !starts_at(v, lo, hi, prefix) {
        return None;
    }
    if hi - lo <= pv.len() {
        return None;
    }
    if v[hi - 1] != ')' {
        return None;
    }
    assert(s.last() == v@[hi - 1]);
    assert(s.subrange(pv@.len() as int, s.len() - 1) == v@.subrange(lo + pv@.len(), hi - 1));
    Some((lo + pv.len(), hi - 1))
}

/// Whether `v[lo..hi]` starts with `prefix` and ends with `)`.
pub fn is_call_at(v: &Vec<char>, lo: usize, hi: usize, prefix: &str) -> (r: bool)
    requires
        lo <= hi <= v@.len(),
    ensures
        r == is_call(v@.subrange(lo as int, hi as int), prefix@),
{
    let ghost s = v@.subrange(lo as int, hi as int);
    if !starts_at(v, lo, hi, prefix) {
        return false;
    }
    if hi == lo {
        return false;
    }
    assert(s.last() == v@[hi - 1]);
    v[hi - 1] == ')'
}

/// The trimmed text of `v[lo..hi]`.
pub fn trim_range(v: &Vec<char>, lo: usize, hi: usize) -> (r: String)
    requires
        lo <= hi <= v@.len(),
    ensures
        r@ == trim(v@.subrange(lo as int, hi as int)),
{
    let s = string_from(v.as_slice(), lo, hi);
    let sv = chars_of(s.as_str());
    let (a, b) = trim_bounds(&sv);
    string_from(sv.as_slice(), a, b)
}

// ── Lexicographic order ──────────────────────────────────────────

/// Strict lexicographic order by code point — the order of `str`.
pub open spec fn lex_lt(a: Chars, b: Chars) -> bool
    decreases a.len(),
{
    if b.len() == 0 {
        false
    } else if a.len() == 0 {
        true
    } else if a[0] != b[0] {
        a[0] < b[0]
    } else {
        lex_lt(a.drop_first(), b.drop_first())
    }
}

pub proof fn lemma_lex_irreflexive(a: Chars)
    ensures
        !lex_lt(a, a),
    decreases a.len(),
{
    if a.len() > 0 {
        lemma_lex_irreflexive(a.drop_first());
    }
}

pub proof fn lemma_lex_total(a: Chars, b: Chars)
    ensures
        a != b ==> lex_lt(a, b) || lex_lt(b, a),
    decreases a.len(),
{
    if a.len() > 0 && b.len() > 0 && a[0] == b[0] {
        lemma_lex_total(a.drop_first(), b.drop_first());
        if a.drop_first() == b.drop_first() {
            assert forall|i: int| 0 <= i < a.len() implies a[i] == b[i] by {
                if i > 0 {
                    assert(a[i] == a.drop_first()[i - 1]);
                    assert(b[i] == b.drop_first()[i - 1]);
                }
            }
            assert(a =~= b);
        }
    } else if a.len() == 0 && b.len() == 0 {
        assert(a =~= b);
    }
}

pub proof fn lemma_lex_transitive(a: Chars, b: Chars, c: Chars)
    requires
        lex_lt(a, b),
        lex_lt(b, c),
    ensures
        lex_lt(a, c),
    decreases a.len(),
{
    if a.len() > 0 && a[0] == b[0] && b[0] == c[0] {
        lemma_lex_transitive(a.drop_first(), b.drop_first(), c.drop_first());
    }
}

pub proof fn lemma_lex_asymmetric(a: Chars, b: Chars)
    requires
        lex_lt(a, b),
    ensures
        !lex_lt(b, a),
{
    if lex_lt(b, a) {
        lemma_lex_transitive(a, b, a);
        lemma_lex_irreflexive(a);
    }
}

/// `a < b` on strings.
pub fn str_lt(a: &str, b: &str) -> (r: bool)
    ensures
        r == lex_lt(a@, b@),
{
    let va = chars_of(a);
    let vb = chars_of(b);
    let mut i: usize = 0;
    assert(va@.skip(0) == va@);
    assert(vb@.skip(0) == vb@);
    while i < va.len() && i < vb.len()
        invariant
            va@ == a@,
            vb@ == b@,
            i <= va@.len(),
            i <= vb@.len(),
            lex_lt(va@, vb@) == lex_lt(va@.skip(i as int), vb@.skip(i as int)),
        decreases va@.len() - i,
    {
        assert(va@.skip(i as int)[0] == va@[i as int]);
        assert(vb@.skip(i as int)[0] == vb@[i as int]);
        if va[i] != vb[i] {
            return va[i] < vb[i];
        }
        assert(va@.skip(i as int).drop_first() == va@.skip(i + 1));
        assert(vb@.skip(i as int).drop_first() == vb@.skip(i + 1));
        i += 1;
    }
    va.len() < vb.len()
}

/// Every element is smaller than every later one.
pub open spec fn strictly_sorted(s: Seq<Chars>) -> bool {
    forall|i: int, j: int| 0 <= i < j < s.len() ==> lex_lt(#[trigger] s[i], #[trigger] s[j])
}

/// Inserts `x` into a strictly sorted list unless it is already there.
pub fn insert_sorted(v: &mut Vec<String>, x: &str)
    requires
        strictly_sorted(views(old(v)@)),
    ensures
        strictly_sorted(views(final(v)@)),
        forall|y: Chars| views(final(v)@).contains(y) <==> (views(old(v)@).contains(y) || y == x@),
{
    let ghost s = views(v@);
    let mut k: usize = 0;
    while k < v.len() && str_lt(v[k].as_str(), x)
        invariant
            k <= v@.len(),
            s == views(v@),
            v@ == old(v)@,
            strictly_sorted(s),
            forall|i: int| 0 <= i < k ==> lex_lt(#[trigger] s[i], x@),
        decreases v@.len() - k,
    {
        k += 1;
    }
    if k < v.len() && str_eq(v[k].as_str(), x) {
        assert(s[k as int] == x@);
        return;
    }
    proof {
        if k < s.len() {
            lemma_lex_total(s[k as int], x@);
        }
        assert forall|j: int| k <= j < s.len() implies lex_lt(x@, #[trigger] s[j]) by {
            if j > k {
                lemma_lex_transitive(x@, s[k as int], s[j]);
            }
        }
    }
    assert(s == views(old(v)@));
    v.insert(k, owned(x));
    assert(views(v@) =~= s.insert(k as int, x@));
    assert forall|y: Chars| views(v@).contains(y) <==> (s.contains(y) || y == x@) by {
        if views(v@).contains(y) {
            let i = choose|i: int| 0 <= i < views(v@).len() && views(v@)[i] == y;
            if i < k {
                assert(s[i] == y);
            } else if i > k {
                assert(s[i - 1] == y);
            }
        }
        if s.contains(y) {
            let i = choose|i: int| 0 <= i < s.len() && s[i] == y;
            if i < k {
                assert(views(v@)[i] == y);
            } else {
                assert(views(v@)[i + 1] == y);
            }
        }
        if y == x@ {
            assert(views(v@)[k as int] == y);
        }
    }
    assert(forall|y: Chars| views(v@).contains(y) <==> (views(old(v)@).contains(y) || y == x@));
}

// ── Ordered pairs ────────────────────────────────────────────────

/// Lexicographic order on pairs of strings (first, then second).
pub open spec fn pair_lt(a: (Chars, Chars), b: (Chars, Chars)) -> bool {
    lex_lt(a.0, b.0) || (a.0 == b.0 && lex_lt(a.1, b.1))
}

pub proof fn lemma_pair_order(a: (Chars, Chars), b: (Chars, Chars), c: (Chars, Chars))
    ensures
        !pair_lt(a, a),
        a != b ==> pair_lt(a, b) || pair_lt(b, a),
        pair_lt(a, b) && pair_lt(b, c) ==> pair_lt(a, c),
        pair_lt(a, b) ==> !pair_lt(b, a),
{
    lemma_lex_irreflexive(a.0);
    lemma_lex_irreflexive(a.1);
    lemma_lex_total(a.0, b.0);
    lemma_lex_total(a.1, b.1);
    if lex_lt(a.0, b.0) {
        lemma_lex_asymmetric(a.0, b.0);
    }
    if lex_lt(b.0, a.0) {
        lemma_lex_asymmetric(b.0, a.0);
    }
    if lex_lt(a.1, b.1) {
        lemma_lex_asymmetric(a.1, b.1);
    }
    if pair_lt(a, b) && pair_lt(b, c) {
        if lex_lt(a.0, b.0) && lex_lt(b.0, c.0) {
            lemma_lex_transitive(a.0, b.0, c.0);
        }
        if a.0 == b.0 && b.0 == c.0 && lex_lt(a.1, b.1) && lex_lt(b.1, c.1) {
            lemma_lex_transitive(a.1, b.1, c.1);
        }
    }
}

pub open spec fn pair_views(s: Seq<(String, String)>) -> Seq<(Chars, Chars)> {
    s.map_values(|p: (String, String)| (p.0@, p.1@))
}

pub open spec fn strictly_sorted_pairs(s: Seq<(Chars, Chars)>) -> bool {
    forall|i: int, j: int| 0 <= i < j < s.len() ==> pair_lt(#[trigger] s[i], #[trigger] s[j])
}

pub(crate) fn pair_less(a: &(String, String), b0: &str, b1: &str) -> (r: bool)
    ensures
        r == pair_lt((a.0@, a.1@), (b0@, b1@)),
{
    str_lt(a.0.as_str(), b0) || (str_eq(a.0.as_str(), b0) && str_lt(a.1.as_str(), b1))
}

/// Inserts a pair into a strictly sorted list unless it is already there.
pub fn insert_sorted_pair(v: &mut Vec<(String, String)>, x0: &str, x1: &str)
    requires
        strictly_sorted_pairs(pair_views(old(v)@)),
    ensures
        strictly_sorted_pairs(pair_views(final(v)@)),
        forall|y: (Chars, Chars)| pair_views(final(v)@).contains(y) <==> (pair_views(old(v)@).contains(y) || y == (x0@, x1@)),
{
    let ghost s = pair_views(v@);
    let ghost x = (x0@, x1@);
    let mut k: usize = 0;
    while k < v.len() && pair_less(&v[k], x0, x1)
        invariant
            k <= v@.len(),
            s == pair_views(v@),
            v@ == old(v)@,
            x == (x0@, x1@),
            strictly_sorted_pairs(s),
            forall|i: int| 0 <= i < k ==> pair_lt(#[trigger] s[i], x),
        decreases v@.len() - k,
    {
        assert(s[k as int] == (v@[k as int].0@, v@[k as int].1@));
        k += 1;
    }
    if k < v.len() {
        assert(s[k as int] == (v@[k as int].0@, v@[k as int].1@));
        if str_eq(v[k].0.as_str(), x0) && str_eq(v[k].1.as_str(), x1) {
            assert(s[k as int] == x);
            return;
        }
    }
    proof {
        if k < s.len() {
            lemma_pair_order(s[k as int], x, x);
        }
        assert forall|j: int| k <= j < s.len() implies pair_lt(x, #[trigger] s[j]) by {
            if j > k {
                lemma_pair_order(x, s[k as int], s[j]);
            }
        }
    }
    v.insert(k, (owned(x0), owned(x1)));
    assert(pair_views(v@) =~= s.insert(k as int, x));
    assert forall|y: (Chars, Chars)| pair_views(v@).contains(y) <==> (s.contains(y) || y == x) by {
        if pair_views(v@).contains(y) {
            let i = choose|i: int| 0 <= i < pair_views(v@).len() && pair_views(v@)[i] == y;
            if i < k {
                assert(s[i] == y);
            } else if i > k {
                assert(s[i - 1] == y);
            }
        }
        if s.contains(y) {
            let i = choose|i: int| 0 <= i < s.len() && s[i] == y;
            if i < k {
                assert(pair_views(v@)[i] == y);
            } else {
                assert(pair_views(v@)[i + 1] == y);
            }
        }
        if y == x {
            assert(pair_views(v@)[k as int] == y);
        }
    }
    assert(forall|y: (Chars, Chars)| pair_views(v@).contains(y) <==> (pair_views(old(v)@).contains(y) || y == (x0@, x1@)));
}

/// The same members, each once, in strictly increasing order.
pub open spec fn sorted_members(t: Seq<Chars>, s: Seq<Chars>) -> bool {
    strictly_sorted(t) && forall|x: Chars| t.contains(x) <==> s.contains(x)
}

/// A strictly sorted list is determined by its members.
pub proof fn lemma_sorted_unique(t1: Seq<Chars>, t2: Seq<Chars>)
    requires
        strictly_sorted(t1),
        strictly_sorted(t2),
        forall|x: Chars| t1.contains(x) <==> t2.contains(x),
    ensures
        t1 == t2,
    decreases t1.len(),
{
    if t1.len() == 0 {
        if t2.len() > 0 {
            assert(t2.contains(t2[0]));
        }
        assert(t1 =~= t2);
    } else {
        assert(t1.contains(t1[0]));
        assert(t2.len() > 0);
        assert(t2.contains(t2[0]));
        let j = choose|j: int| 0 <= j < t2.len() && t2[j] == t1[0];
        let i = choose|i: int| 0 <= i < t1.len() && t1[i] == t2[0];
        if j > 0 {
            assert(lex_lt(t2[0], t2[j]));
            if i > 0 {
                assert(lex_lt(t1[0], t1[i]));
                lemma_lex_asymmetric(t1[0], t2[0]);
            } else {
                lemma_lex_irreflexive(t2[0]);
            }
        }
        assert(t1[0] == t2[0]);
        let r1 = t1.drop_first();
        let r2 = t2.drop_first();
        assert forall|x: Chars| r1.contains(x) <==> r2.contains(x) by {
            if r1.contains(x) {
                let a = choose|a: int| 0 <= a < r1.len() && r1[a] == x;
                assert(t1[a + 1] == x);
                assert(lex_lt(t1[0], t1[a + 1]));
                lemma_lex_irreflexive(x);
                assert(t2.contains(x));
                let b = choose|b: int| 0 <= b < t2.len() && t2[b] == x;
                assert(b != 0);
                assert(r2[b - 1] == x);
            }
            if r2.contains(x) {
                let a = choose|a: int| 0 <= a < r2.len() && r2[a] == x;
                assert(t2[a + 1] == x);
                assert(lex_lt(t2[0], t2[a + 1]));
                lemma_lex_irreflexive(x);
                assert(t1.contains(x));
                let b = choose|b: int| 0 <= b < t1.len() && t1[b] == x;
                assert(b != 0);
                assert(r1[b - 1] == x);
            }
        }
        assert forall|a: int, b: int| 0 <= a < b < r1.len() implies lex_lt(#[trigger] r1[a], #[trigger] r1[b]) by {
            assert(r1[a] == t1[a + 1] && r1[b] == t1[b + 1]);
        }
        assert forall|a: int, b: int| 0 <= a < b < r2.len() implies lex_lt(#[trigger] r2[a], #[trigger] r2[b]) by {
            assert(r2[a] == t2[a + 1] && r2[b] == t2[b + 1]);
        }
        lemma_sorted_unique(r1, r2);
        assert(t1 =~= seq![t1[0]] + r1);
        assert(t2 =~= seq![t2[0]] + r2);
    }
}

/// The same members, each once, in strictly increasing order.
pub open spec fn sorted_pair_members(t: Seq<(Chars, Chars)>, s: Seq<(Chars, Chars)>) -> bool {
    strictly_sorted_pairs(t) && forall|x: (Chars, Chars)| t.contains(x) <==> s.contains(x)
}

/// A strictly sorted list is determined by its members.
pub proof fn lemma_sorted_pairs_unique(t1: Seq<(Chars, Chars)>, t2: Seq<(Chars, Chars)>)
    requires
        strictly_sorted_pairs(t1),
        strictly_sorted_pairs(t2),
        forall|x: (Chars, Chars)| t1.contains(x) <==> t2.contains(x),
    ensures
        t1 == t2,
    decreases t1.len(),
{
    if t1.len() == 0 {
        if t2.len() > 0 {
            assert(t2.contains(t2[0]));
        }
        assert(t1 =~= t2);
    } else {
        assert(t1.contains(t1[0]));
        assert(t2.len() > 0);
        assert(t2.contains(t2[0]));
        let j = choose|j: int| 0 <= j < t2.len() && t2[j] == t1[0];
        let i = choose|i: int| 0 <= i < t1.len() && t1[i] == t2[0];
        if j > 0 {
            assert(pair_lt(t2[0], t2[j]));
            if i > 0 {
                assert(pair_lt(t1[0], t1[i]));
                lemma_pair_order(t1[0], t2[0], t2[0]);
            } else {
                lemma_pair_order(t2[0], t2[0], t2[0]);
            }
        }
        assert(t1[0] == t2[0]);
        let r1 = t1.drop_first();
        let r2 = t2.drop_first();
        assert forall|x: (Chars, Chars)| r1.contains(x) <==> r2.contains(x) by {
            if r1.contains(x) {
                let a = choose|a: int| 0 <= a < r1.len() && r1[a] == x;
                assert(t1[a + 1] == x);
                assert(pair_lt(t1[0], t1[a + 1]));
                lemma_pair_order(x, x, x);
                assert(t2.contains(x));
                let b = choose|b: int| 0 <= b < t2.len() && t2[b] == x;
                assert(b != 0);
                assert(r2[b - 1] == x);
            }
            if r2.contains(x) {
                let a = choose|a: int| 0 <= a < r2.len() && r2[a] == x;
                assert(t2[a + 1] == x);
                assert(pair_lt(t2[0], t2[a + 1]));
                lemma_pair_order(x, x, x);
                assert(t1.contains(x));
                let b = choose|b: int| 0 <= b < t1.len() && t1[b] == x;
                assert(b != 0);
                assert(r1[b - 1] == x);
            }
        }
        assert forall|a: int, b: int| 0 <= a < b < r1.len() implies pair_lt(#[trigger] r1[a], #[trigger] r1[b]) by {
            assert(r1[a] == t1[a + 1] && r1[b] == t1[b + 1]);
        }
        assert forall|a: int, b: int| 0 <= a < b < r2.len() implies pair_lt(#[trigger] r2[a], #[trigger] r2[b]) by {
            assert(r2[a] == t2[a + 1] && r2[b] == t2[b + 1]);
        }
        lemma_sorted_pairs_unique(r1, r2);
        assert(t1 =~= seq![t1[0]] + r1);
        assert(t2 =~= seq![t2[0]] + r2);
    }
}

/// The strictly sorted list of the members of `s`.
pub open spec fn sorted_of(s: Seq<Chars>) -> Seq<Chars> {
    choose|t: Seq<Chars>| sorted_members(t, s)
}

/// The members of a list, sorted and without repeats.
pub fn sorted_unique(v: &Vec<String>) -> (r: Vec<String>)
    ensures
        views(r@) == sorted_of(views(v@)),
        sorted_members(views(r@), views(v@)),
{
    let ghost vv = views(v@);
    let mut r: Vec<String> = Vec::new();
    let mut i: usize = 0;
    while i < v.len()
        invariant
            i <= v@.len(),
            vv == views(v@),
            sorted_members(views(r@), vv.take(i as int)),
        decreases v@.len() - i,
    {
        let ghost before = vv.take(i as int);
        assert(vv.take(i + 1) == before.push(vv[i as int]));
        insert_sorted(&mut r, v[i].as_str());
        assert forall|y: Chars| views(r@).contains(y) <==> vv.take(i + 1).contains(y) by {
            if y == vv[i as int] {
                assert(before.push(y)[i as int] == y);
            }
            if before.push(vv[i as int]).contains(y) && y != vv[i as int] {
                let k = choose|k: int| 0 <= k < i + 1 && before.push(vv[i as int])[k] == y;
                assert(before[k] == y);
            }
        }
        i += 1;
    }
    assert(vv.take(v@.len() as int) == vv);
    proof { lemma_sorted_of(views(r@), vv); }
    r
}

/// The strictly sorted list of the members of `s`.
pub open spec fn sorted_pairs_of(s: Seq<(Chars, Chars)>) -> Seq<(Chars, Chars)> {
    choose|t: Seq<(Chars, Chars)>| sorted_pair_members(t, s)
}

pub proof fn lemma_sorted_of(t: Seq<Chars>, s: Seq<Chars>)
    requires
        sorted_members(t, s),
    ensures
        t == sorted_of(s),
{
    let u = sorted_of(s);
    assert(sorted_members(u, s));
    lemma_sorted_unique(t, u);
}

pub proof fn lemma_sorted_pairs_of(t: Seq<(Chars, Chars)>, s: Seq<(Chars, Chars)>)
    requires
        sorted_pair_members(t, s),
    ensures
        t == sorted_pairs_of(s),
{
    let u = sorted_pairs_of(s);
    assert(sorted_pair_members(u, s));
    lemma_sorted_pairs_unique(t, u);
}

// ── Concatenation ────────────────────────────────────────────────

/// The texts of the items, one after another.
pub open spec fn cat<A>(s: Seq<A>, f: spec_fn(A) -> Chars) -> Chars
    decreases s.len(),
{
    if s.len() == 0 {
        Seq::empty()
    } else {
        cat(s.drop_last(), f) + f(s.last())
    }
}

pub proof fn lemma_cat_step<A>(s: Seq<A>, f: spec_fn(A) -> Chars, i: int)
    requires
        0 <= i < s.len(),
    ensures
        cat(s.take(i + 1), f) == cat(s.take(i), f) + f(s[i]),
{
    assert(s.take(i + 1).drop_last() == s.take(i));
    assert(s.take(i + 1).last() == s[i]);
}

} // verus!
