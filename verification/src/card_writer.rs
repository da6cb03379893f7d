//! Writing cards back: new YAML frontmatter, the Markdown body kept.
use vstd::prelude::*;

use crate::card::{
    closing, dashes, find_from, found_split, frontmatter_spec, split_frontmatter, strip_newline,
};
use crate::text::{is_ws, ltrim};
use crate::text::{Chars, chars_of, push_char, push_str};

verus! {

/// The body as it follows the frontmatter: (when there is a body) an empty
/// line unless the body already begins with one, the body, and a final
/// newline if the body lacks one.
pub open spec fn body_tail(body: Chars) -> Chars {
    if body.len() == 0 {
        body
    } else {
        let sep = if body[0] == '\n' { Seq::<char>::empty() } else { seq!['\n'] };
        if body.last() == '\n' {
            sep + body
        } else {
            sep + body + seq!['\n']
        }
    }
}

/// `head` followed by the body as [`body_tail`] lays it out.
pub open spec fn with_body(head: Chars, body: Chars) -> Chars {
    head + body_tail(body)
}

/// The card with its frontmatter replaced by `yaml`; a text without
/// frontmatter becomes the body.
pub open spec fn rewrite_spec(raw: Chars, yaml: Chars) -> Chars {
    let head = "---\n"@ + yaml + "---\n"@;
    match frontmatter_spec(raw) {
        Some((_, body)) => with_body(head, body),
        None => with_body(head, raw),
    }
}

fn push_body(out: &mut String, body: &str)
    ensures
        final(out)@ == with_body(old(out)@, body@),
{
    let v = chars_of(body);
    if v.len() > 0 {
        if v[0] != '\n' {
            push_char(out, '\n');
        }
        push_str(out, body);
        if v[v.len() - 1] != '\n' {
            push_char(out, '\n');
        }
    }
}

/// Rewrite the YAML frontmatter of a raw Markdown card, keeping the body.
pub fn rewrite_frontmatter(raw: &str, new_yaml: &str) -> (r: String)
    ensures
        r@ == rewrite_spec(raw@, new_yaml@),
{
    let mut out = String::new();
    push_str(&mut out, "---\n");
    push_str(&mut out, new_yaml);
    push_str(&mut out, "---\n");
    match split_frontmatter(raw) {
        Some((_old, body)) => push_body(&mut out, body),
        None => push_body(&mut out, raw),
    }
    out
}

// ── Law ──────────────────────────────────────────────────────────

/// The body a card keeps when rewritten: its body, or the whole text when
/// it has no frontmatter.
pub open spec fn kept_body(raw: Chars) -> Chars {
    match frontmatter_spec(raw) {
        Some((_, body)) => body,
        None => raw,
    }
}

/// The frontmatter text holds no closing marker of its own.
pub open spec fn no_marker(y: Chars) -> bool {
    forall|i: int| 0 <= i && i + 4 <= y.len() ==> #[trigger] y.subrange(i, i + 4) != closing()
}

proof fn lemma_find_from_at(s: Chars, p: Chars, i: int, k: int)
    requires
        0 <= i <= k,
        k < s.len(),
        k + p.len() <= s.len(),
        s.subrange(k, k + p.len()) == p,
        forall|j: int| i <= j < k ==> #[trigger] s.subrange(j, j + p.len()) != p,
    ensures
        find_from(s, p, i) == Some(k),
    decreases k - i,
{
    if i < k {
        lemma_find_from_at(s, p, i + 1, k);
    }
}

/// Splitting a rewritten card gives back the new frontmatter (without its
/// final newline) and the old body after one empty line, ending in a
/// newline; this holds for frontmatter that ends in a newline and holds
/// no `\n---` of its own.
pub proof fn lemma_rewrite_then_split(raw: Chars, yaml: Chars)
    requires
        yaml.len() > 0,
        yaml.last() == '\n',
        no_marker(yaml),
    ensures
        frontmatter_spec(rewrite_spec(raw, yaml)) == Some((yaml.drop_last(), body_tail(kept_body(raw)))),
{
    reveal_strlit("---\n");
    let b = kept_body(raw);
    let tail = body_tail(b);
    let out = rewrite_spec(raw, yaml);
    assert(out =~= seq!['-', '-', '-', '\n'] + yaml + seq!['-', '-', '-', '\n'] + tail);
    assert(!is_ws(out[0]));
    assert(ltrim(out) == out);
    assert(out.take(3) =~= dashes());
    let a = strip_newline(out.skip(3));
    assert(a =~= yaml + seq!['-', '-', '-', '\n'] + tail);
    let k = yaml.len() - 1;
    assert(a.subrange(k, k + 4) =~= closing());
    assert forall|j: int| 0 <= j < k implies #[trigger] a.subrange(j, j + closing().len()) != closing() by {
        if j + 4 <= yaml.len() {
            assert(a.subrange(j, j + 4) =~= yaml.subrange(j, j + 4));
        } else {
            let d = k - j;
            assert(a.subrange(j, j + 4)[d] == yaml[k]);
            assert(closing()[d] == '-');
        }
    }
    lemma_find_from_at(a, closing(), 0, k);
    assert(a.take(k) =~= yaml.drop_last());
    assert(a.skip(k + 4) =~= seq!['\n'] + tail);
    assert(strip_newline(a.skip(k + 4)) =~= tail);
    assert(found_split(a) == Some((yaml.drop_last(), tail)));
}

/// Laying a body out twice changes nothing: the laid-out body already
/// begins with its empty line and ends with its newline.
proof fn lemma_body_tail_idempotent(b: Chars)
    ensures
        body_tail(body_tail(b)) == body_tail(b),
{
    let t = body_tail(b);
    if b.len() > 0 {
        if b[0] == '\n' {
            assert(t[0] == b[0]);
        } else {
            assert(t[0] == '\n');
        }
        assert(t.last() == '\n');
        assert(Seq::<char>::empty() + t =~= t);
    }
}

/// Rewriting a card twice with the same frontmatter gives what rewriting it
/// once gives: the body is kept as it is, with no second empty line added
/// before it; this holds for frontmatter that ends in a newline and holds
/// no `\n---` of its own.
pub proof fn lemma_rewrite_idempotent(raw: Chars, yaml: Chars)
    requires
        yaml.len() > 0,
        yaml.last() == '\n',
        no_marker(yaml),
    ensures
        rewrite_spec(rewrite_spec(raw, yaml), yaml) == rewrite_spec(raw, yaml),
{
    lemma_rewrite_then_split(raw, yaml);
    lemma_body_tail_idempotent(kept_body(raw));
}

} // verus!
