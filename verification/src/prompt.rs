//! The author's prompt: world state, dramatic goals, point-of-view limits
//! and instructions, assembled from a snapshot and the director's plan,
//! with a content hash so that an unchanged prompt is not written again.
use sha2::{Digest, Sha256};
use vstd::prelude::*;

use crate::entity::{Character, CharacterV, Entity, EntityV, RelationshipV, rel_views};
use crate::goal::{
    FlatGoal, FlatGoalV, GoalEntity, GoalEntityV, conflict_views, conflicts_spec, find_active_conflicts,
    flatten_spec, goal_entity_views, goal_tree_spec, heights_ok, render_goal_tree,
};
use crate::drama::DirectorNotes;
use crate::goal::ov;
use crate::intent::{DramaticIntent, DramaticIntentV, join_with, push_joined, summary_spec};
use crate::validate::intent_views;
use crate::secret::{Secret, SecretV, secret_views};
use crate::snapshot::{Snapshot, SnapshotV, entity_ref_views};
use crate::op::{Op, OpV, describe_spec, op_views};
use crate::reasoning::{ReasoningResult, lemma_same_rows_same_result, lookup, names, rows_view};
use crate::text::{
    Chars, cat, contains_str, dec, int_dec, lemma_cat_step, push_dec, push_int, push_str, str_eq, strictly_sorted,
    views,
};

verus! {



// ── Characters ───────────────────────────────────────────────────

/// Whether the entity is seen from inside: there is no point of view, or
/// it is the point-of-view character.
pub open spec fn is_pov_of(pov: Option<Chars>, id: Chars) -> bool {
    match pov {
        None => true,
        Some(v) => v == id,
    }
}

pub open spec fn display_name(e: EntityV) -> Chars {
    match e.name() {
        Some(n) => n,
        None => e.id(),
    }
}

/// A labelled, comma-separated list on a line of its own; nothing for an
/// empty list.
pub open spec fn list_line(label: Chars, items: Seq<Chars>) -> Chars {
    if items.len() == 0 {
        Seq::empty()
    } else {
        label + join_with(items, ", "@) + "\n"@
    }
}

pub open spec fn rel_text(r: RelationshipV) -> Chars {
    r.role + "("@ + r.target + ") [T"@ + int_dec(r.trust as int) + "A"@ + int_dec(r.affinity as int) + "R"@
        + int_dec(r.respect as int) + "]"@
}

pub open spec fn rel_texts(rs: Seq<RelationshipV>) -> Seq<Chars> {
    rs.map_values(|r: RelationshipV| rel_text(r))
}

pub open spec fn place_line(loc: Option<Chars>) -> Chars {
    match loc {
        Some(l) => "- 位置: "@ + l + "\n"@,
        None => Seq::empty(),
    }
}

/// Beliefs and desires, from inside; from outside only a note that they
/// are hidden, if there are any.
pub open spec fn bdi_part(c: CharacterV, inside: bool) -> Chars {
    if inside {
        list_line("- 信念: "@, c.beliefs) + list_line("- 欲望: "@, c.desires)
    } else if c.beliefs.len() > 0 || c.desires.len() > 0 {
        "- BDI: [已隐藏]\n"@
    } else {
        Seq::empty()
    }
}

pub open spec fn char_body(c: CharacterV, inside: bool) -> Chars {
    list_line("- 特质: "@, c.traits) + place_line(c.location) + bdi_part(c, inside) + list_line("- 物品: "@, c.inventory)
        + list_line("- 关系: "@, rel_texts(c.relationships))
}

/// What a character's block shows under its heading.
pub open spec fn character_body(e: EntityV, inside: bool) -> Chars {
    match e {
        EntityV::Character(c) => char_body(c, inside),
        _ => Seq::empty(),
    }
}

pub open spec fn character_block(e: EntityV, pov: Option<Chars>) -> Chars {
    let inside = is_pov_of(pov, e.id());
    "### "@ + display_name(e) + " ("@ + e.id() + if inside {
        ")\n"@
    } else {
        ") [非视角角色]\n"@
    } + character_body(e, inside) + "\n"@
}

/// A character seen from another point of view shows nothing of its
/// beliefs and desires but whether it has any: two characters that differ
/// only there, and agree on having some, get the same block.
pub proof fn lemma_hidden_bdi(c1: CharacterV, c2: CharacterV, v: Chars)
    requires
        v != c1.id,
        c2 == (CharacterV { beliefs: c2.beliefs, desires: c2.desires, ..c1 }),
        (c1.beliefs.len() == 0 && c1.desires.len() == 0) == (c2.beliefs.len() == 0 && c2.desires.len() == 0),
    ensures
        character_block(EntityV::Character(c1), Some(v)) == character_block(EntityV::Character(c2), Some(v)),
{
    assert(EntityV::Character(c1).id() == c1.id);
    assert(EntityV::Character(c2).id() == c2.id);
    assert(bdi_part(c1, false) == bdi_part(c2, false));
}

pub open spec fn opt_view(o: Option<&str>) -> Option<Chars> {
    match o {
        Some(s) => Some(s@),
        None => None,
    }
}

fn push_list_line(out: &mut String, label: &str, items: &Vec<String>)
    ensures
        final(out)@ == old(out)@ + list_line(label@, views(items@)),
{
    if items.len() > 0 {
        push_str(out, label);
        push_joined(out, items, ", ");
        push_str(out, "\n");
    }
}

fn rel_strings(rs: &Vec<crate::entity::Relationship>) -> (r: Vec<String>)
    ensures
        views(r@) == rel_texts(rel_views(rs@)),
{
    let ghost rv = rel_views(rs@);
    let mut out: Vec<String> = Vec::new();
    let mut i: usize = 0;
    while i < rs.len()
        invariant
            i <= rs@.len(),
            rv == rel_views(rs@),
            views(out@) == rel_texts(rv.take(i as int)),
        decreases rs@.len() - i,
    {
        let r = &rs[i];
        let mut s = r.role.clone();
        push_str(&mut s, "(");
        push_str(&mut s, r.target.as_str());
        push_str(&mut s, ") [T");
        push_int(&mut s, r.trust as i64);
        push_str(&mut s, "A");
        push_int(&mut s, r.affinity as i64);
        push_str(&mut s, "R");
        push_int(&mut s, r.respect as i64);
        push_str(&mut s, "]");
        let ghost prev = out@;
        out.push(s);
        assert(rv[i as int] == r@);
        assert(views(out@) =~= views(prev).push(rel_text(rv[i as int])));
        assert(rel_texts(rv.take(i + 1)) =~= rel_texts(rv.take(i as int)).push(rel_text(rv[i as int])));
        i += 1;
    }
    assert(rv.take(rs@.len() as int) == rv);
    out
}

fn push_bdi(out: &mut String, c: &Character, inside: bool)
    ensures
        final(out)@ == old(out)@ + bdi_part(c@, inside),
{
    if inside {
        push_list_line(out, "- 信念: ", &c.beliefs);
        push_list_line(out, "- 欲望: ", &c.desires);
    } else if c.beliefs.len() > 0 || c.desires.len() > 0 {
        push_str(out, "- BDI: [已隐藏]\n");
    }
}

#[verifier::spinoff_prover]
#[verifier::rlimit(30)]
fn push_char_body(out: &mut String, c: &Character, inside: bool)
    ensures
        final(out)@ == old(out)@ + char_body(c@, inside),
{
    let ghost cv = c@;
    let ghost s0 = out@;
    push_list_line(out, "- 特质: ", &c.traits);
    let ghost s1 = out@;
    match &c.location {
        Some(l) => {
            push_str(out, "- 位置: ");
            push_str(out, l.as_str());
            push_str(out, "\n");
        },
        None => {},
    }
    let ghost a = list_line("- 特质: "@, cv.traits);
    let ghost b = place_line(cv.location);
    assert(out@ =~= s1 + b);
    push_bdi(out, c, inside);
    let ghost d = bdi_part(cv, inside);
    push_list_line(out, "- 物品: ", &c.inventory);
    let ghost e = list_line("- 物品: "@, cv.inventory);
    let rels = rel_strings(&c.relationships);
    push_list_line(out, "- 关系: ", &rels);
    let ghost f = list_line("- 关系: "@, rel_texts(cv.relationships));
    assert(out@ == s0 + a + b + d + e + f);
    assert(s0 + a + b + d + e + f =~= s0 + (a + b + d + e + f));
}

/// Append a character's block: heading, traits, place, beliefs and desires
/// (hidden from another point of view), items and relationships.
pub fn render_character(out: &mut String, e: &Entity, pov: Option<&str>)
    ensures
        final(out)@ == old(out)@ + character_block(e@, opt_view(pov)),
{
    let id = e.id();
    let inside = match pov {
        None => true,
        Some(v) => crate::text::str_eq(v, id),
    };
    let name = match e.name() {
        Some(n) => n,
        None => id,
    };
    let ghost start = out@;
    push_str(out, "### ");
    push_str(out, name);
    push_str(out, " (");
    push_str(out, id);
    if inside {
        push_str(out, ")\n");
    } else {
        push_str(out, ") [非视角角色]\n");
    }
    let ghost head = out@;
    match e {
        Entity::Character(c) => push_char_body(out, c, inside),
        _ => {},
    }
    assert(out@ =~= head + character_body(e@, inside));
    push_str(out, "\n");
    assert(out@ =~= start + character_block(e@, opt_view(pov)));
}

// ── Sequences of blocks ──────────────────────────────────────────

// ── Goals ────────────────────────────────────────────────────────

pub open spec fn pov_goal_pred(pov: Option<Chars>) -> spec_fn(GoalEntityV) -> bool {
    |g: GoalEntityV| is_pov_of(pov, g.id)
}

pub open spec fn tree_block() -> spec_fn(GoalEntityV) -> Chars {
    |g: GoalEntityV| goal_tree_spec(g) + "\n"@
}

pub open spec fn conflict_line() -> spec_fn((FlatGoalV, FlatGoalV)) -> Chars {
    |p: (FlatGoalV, FlatGoalV)| "- ⚔ "@ + p.0.owner + "/"@ + p.0.goal.id + " ↔ "@ + p.1.owner + "/"@ + p.1.goal.id
        + "\n"@
}

/// The goal trees of the point-of-view character (of everyone, without
/// one), then the active conflicts among all goals.
pub open spec fn goals_section(ges: Seq<GoalEntityV>, pov: Option<Chars>) -> Chars {
    if ges.len() == 0 {
        Seq::empty()
    } else {
        let mine = ges.filter(pov_goal_pred(pov));
        let cs = conflicts_spec(flatten_spec(ges), flatten_spec(ges)).0;
        (if mine.len() > 0 {
            "## 角色目标\n\n"@ + cat(mine, tree_block())
        } else {
            Seq::empty()
        }) + (if cs.len() > 0 {
            "## 活跃冲突\n\n"@ + cat(cs, conflict_line()) + "\n"@
        } else {
            Seq::empty()
        })
    }
}

fn push_conflict(out: &mut String, a: &FlatGoal, b: &FlatGoal)
    ensures
        final(out)@ == old(out)@ + conflict_line()((a@, b@)),
{
    let ghost start = out@;
    push_str(out, "- ⚔ ");
    push_str(out, a.owner.as_str());
    push_str(out, "/");
    push_str(out, a.goal.id.as_str());
    push_str(out, " ↔ ");
    push_str(out, b.owner.as_str());
    push_str(out, "/");
    push_str(out, b.goal.id.as_str());
    push_str(out, "\n");
    assert(out@ =~= start + conflict_line()((a@, b@)));
}

fn push_conflict_lines(out: &mut String, conflicts: &Vec<(FlatGoal, FlatGoal)>)
    ensures
        final(out)@ == old(out)@ + cat(conflict_views(conflicts@), conflict_line()),
{
    let ghost cs = conflict_views(conflicts@);
    let ghost base = out@;
    let mut k: usize = 0;
    while k < conflicts.len()
        invariant
            k <= conflicts@.len(),
            cs == conflict_views(conflicts@),
            out@ == base + cat(cs.take(k as int), conflict_line()),
        decreases conflicts@.len() - k,
    {
        let (a, b) = &conflicts[k];
        proof {
            lemma_cat_step(cs, conflict_line(), k as int);
            assert(cs[k as int] == (a@, b@));
        }
        push_conflict(out, a, b);
        k += 1;
    }
    assert(cs.take(conflicts@.len() as int) == cs);
}

fn push_goals(out: &mut String, ges: &Vec<GoalEntity>, pov: Option<&str>)
    requires
        heights_ok(goal_entity_views(ges@)),
    ensures
        final(out)@ == old(out)@ + goals_section(goal_entity_views(ges@), opt_view(pov)),
{
    let ghost gv = goal_entity_views(ges@);
    let ghost pp = pov_goal_pred(opt_view(pov));
    if ges.len() == 0 {
        return;
    }
    let ghost start = out@;
    // Whether any tree is shown.
    let mut any = false;
    let mut i: usize = 0;
    while i < ges.len()
        invariant
            i <= ges@.len(),
            gv == goal_entity_views(ges@),
            pp == pov_goal_pred(opt_view(pov)),
            any == (gv.take(i as int).filter(pp).len() > 0),
        decreases ges@.len() - i,
    {
        proof {
            assert(gv.take(i + 1) == gv.take(i as int).push(gv[i as int]));
            gv.take(i as int).lemma_filter_push(gv[i as int], pp);
        }
        let keep = match pov {
            None => true,
            Some(v) => str_eq(ges[i].id.as_str(), v),
        };
        any = any || keep;
        i += 1;
    }
    assert(gv.take(ges@.len() as int) == gv);
    let ghost mine = gv.filter(pp);
    if any {
        push_str(out, "## 角色目标\n\n");
        let ghost base = out@;
        let mut k: usize = 0;
        while k < ges.len()
            invariant
                k <= ges@.len(),
                heights_ok(gv),
                gv == goal_entity_views(ges@),
                pp == pov_goal_pred(opt_view(pov)),
                out@ == base + cat(gv.take(k as int).filter(pp), tree_block()),
            decreases ges@.len() - k,
        {
            let g = &ges[k];
            let ghost before = gv.take(k as int).filter(pp);
            proof {
                assert(gv.take(k + 1) == gv.take(k as int).push(gv[k as int]));
                gv.take(k as int).lemma_filter_push(gv[k as int], pp);
                assert(gv[k as int] == g@);
            }
            let keep = match pov {
                None => true,
                Some(v) => str_eq(g.id.as_str(), v),
            };
            if keep {
                let tree = render_goal_tree(g);
                push_str(out, tree.as_str());
                push_str(out, "\n");
                proof {
                    lemma_cat_step(before.push(g@), tree_block(), before.len() as int);
                    assert(before.push(g@).take(before.len() as int) == before);
                    assert(before.push(g@).take(before.len() as int + 1) == before.push(g@));
                }
            }
            k += 1;
        }
    }
    let ghost mid = out@;
    let conflicts = find_active_conflicts(ges);
    let ghost cs = conflict_views(conflicts@);
    if conflicts.len() > 0 {
        push_str(out, "## 活跃冲突\n\n");
        push_conflict_lines(out, &conflicts);
        push_str(out, "\n");
    }
    assert(out@ =~= start + goals_section(gv, opt_view(pov)));
}

// ── Secrets ──────────────────────────────────────────────────────

/// A secret the point-of-view character knows (every secret, without one).
pub open spec fn visible_pred(pov: Option<Chars>) -> spec_fn(SecretV) -> bool {
    |x: SecretV|
        match pov {
            None => true,
            Some(v) => x.known_by.contains(v),
        }
}

/// A secret the reader knows and the point of view does not.
pub open spec fn irony_pred(pov: Option<Chars>) -> spec_fn(SecretV) -> bool {
    |x: SecretV| x.revealed_to_reader && !visible_pred(pov)(x)
}

pub open spec fn secret_line() -> spec_fn(SecretV) -> Chars {
    |x: SecretV| "- **"@ + x.id + "**: "@ + x.content + "\n"@
}

pub open spec fn titled(title: Chars, body: Chars, nonempty: bool) -> Chars {
    if nonempty {
        title + body + "\n"@
    } else {
        Seq::empty()
    }
}

pub open spec fn secrets_section(ss: Seq<SecretV>, pov: Option<Chars>) -> Chars {
    if ss.len() == 0 {
        Seq::empty()
    } else {
        let vis = ss.filter(visible_pred(pov));
        let irony = ss.filter(irony_pred(pov));
        titled("## POV 已知秘密\n\n"@, cat(vis, secret_line()), vis.len() > 0) + titled(
            "## 戏剧性反讽 (读者知, POV 不知)\n\n"@,
            cat(irony, secret_line()),
            irony.len() > 0,
        )
    }
}

fn is_visible(x: &Secret, pov: Option<&str>) -> (r: bool)
    ensures
        r == visible_pred(opt_view(pov))(x@),
{
    match pov {
        None => true,
        Some(v) => contains_str(&x.known_by, v),
    }
}

/// Appends the lines of the secrets that pass the test (`irony` picks the
/// reader-only ones, else the visible ones); returns whether any did.
fn push_secret_lines(out: &mut String, ss: &Vec<Secret>, pov: Option<&str>, irony: bool) -> (any: bool)
    ensures
        final(out)@ == old(out)@ + cat(
            secret_views(ss@).filter(
                if irony {
                    irony_pred(opt_view(pov))
                } else {
                    visible_pred(opt_view(pov))
                },
            ),
            secret_line(),
        ),
        any == (secret_views(ss@).filter(
            if irony {
                irony_pred(opt_view(pov))
            } else {
                visible_pred(opt_view(pov))
            },
        ).len() > 0),
{
    let ghost sv = secret_views(ss@);
    let ghost pr = if irony {
        irony_pred(opt_view(pov))
    } else {
        visible_pred(opt_view(pov))
    };
    let ghost base = out@;
    let mut any = false;
    let mut k: usize = 0;
    while k < ss.len()
        invariant
            k <= ss@.len(),
            sv == secret_views(ss@),
            pr == (if irony {
                irony_pred(opt_view(pov))
            } else {
                visible_pred(opt_view(pov))
            }),
            out@ == base + cat(sv.take(k as int).filter(pr), secret_line()),
            any == (sv.take(k as int).filter(pr).len() > 0),
        decreases ss@.len() - k,
    {
        let x = &ss[k];
        let ghost before = sv.take(k as int).filter(pr);
        proof {
            assert(sv.take(k + 1) == sv.take(k as int).push(sv[k as int]));
            sv.take(k as int).lemma_filter_push(sv[k as int], pr);
            assert(sv[k as int] == x@);
        }
        let vis = is_visible(x, pov);
        let keep = if irony {
            x.revealed_to_reader && !vis
        } else {
            vis
        };
        if keep {
            push_str(out, "- **");
            push_str(out, x.id.as_str());
            push_str(out, "**: ");
            push_str(out, x.content.as_str());
            push_str(out, "\n");
            any = true;
            proof {
                lemma_cat_step(before.push(x@), secret_line(), before.len() as int);
                assert(before.push(x@).take(before.len() as int) == before);
                assert(before.push(x@).take(before.len() as int + 1) == before.push(x@));
            }
        }
        k += 1;
    }
    assert(sv.take(ss@.len() as int) == sv);
    any
}

fn push_secrets(out: &mut String, ss: &Vec<Secret>, pov: Option<&str>)
    ensures
        final(out)@ == old(out)@ + secrets_section(secret_views(ss@), opt_view(pov)),
{
    if ss.len() == 0 {
        return;
    }
    let ghost start = out@;
    let mut vis = String::new();
    let any_vis = push_secret_lines(&mut vis, ss, pov, false);
    if any_vis {
        push_str(out, "## POV 已知秘密\n\n");
        push_str(out, vis.as_str());
        push_str(out, "\n");
    }
    let mut irony = String::new();
    let any_irony = push_secret_lines(&mut irony, ss, pov, true);
    if any_irony {
        push_str(out, "## 戏剧性反讽 (读者知, POV 不知)\n\n");
        push_str(out, irony.as_str());
        push_str(out, "\n");
    }
    assert(out@ =~= start + secrets_section(secret_views(ss@), opt_view(pov)));
}

// ── Locations ────────────────────────────────────────────────────

pub open spec fn location_line() -> spec_fn(EntityV) -> Chars {
    |e: EntityV|
        "- **"@ + display_name(e) + "** ("@ + e.id() + ")"@ + match e {
            EntityV::Location(l) => if l.properties.len() > 0 {
                ": "@ + join_with(l.properties, ", "@)
            } else {
                Seq::empty()
            },
            _ => Seq::empty(),
        } + "\n"@
}

fn push_location(out: &mut String, e: &Entity)
    ensures
        final(out)@ == old(out)@ + location_line()(e@),
{
    let ghost start = out@;
    let id = e.id();
    let name = match e.name() {
        Some(n) => n,
        None => id,
    };
    push_str(out, "- **");
    push_str(out, name);
    push_str(out, "** (");
    push_str(out, id);
    push_str(out, ")");
    match e {
        Entity::Location(l) => {
            if l.properties.len() > 0 {
                push_str(out, ": ");
                push_joined(out, &l.properties, ", ");
            }
        },
        _ => {},
    }
    push_str(out, "\n");
    assert(out@ =~= start + location_line()(e@));
}

// ── Derived facts ────────────────────────────────────────────────

pub open spec fn row_line() -> spec_fn(Seq<Chars>) -> Chars {
    |row: Seq<Chars>| "- "@ + join_with(row, ", "@) + "\n"@
}

pub open spec fn predicate_block() -> spec_fn((Chars, Seq<Seq<Chars>>)) -> Chars {
    |p: (Chars, Seq<Seq<Chars>>)|
        if p.1.len() == 0 {
            Seq::empty()
        } else {
            "### "@ + p.0 + "\n"@ + cat(p.1, row_line()) + "\n"@
        }
}

/// The derived facts, predicate by predicate, when there are any.
pub open spec fn reasoning_section(r: Option<(Seq<(Chars, Seq<Seq<Chars>>)>, nat)>) -> Chars {
    match r {
        Some((ps, total)) => if total > 0 {
            "\n## 推理结果\n\n"@ + cat(ps, predicate_block())
        } else {
            Seq::empty()
        },
        None => Seq::empty(),
    }
}

/// Two reasoning results in name order that hold the same rows for every
/// predicate, with the same total, give the same derived-facts section, so
/// the prompt and its content hash do not depend on the order in which the
/// facts were recorded.
pub proof fn lemma_same_facts_same_section(p: Seq<(Chars, Seq<Seq<Chars>>)>, q: Seq<(Chars, Seq<Seq<Chars>>)>, total: nat)
    requires
        strictly_sorted(names(p)),
        strictly_sorted(names(q)),
        forall|n: Chars| lookup(p, n) == lookup(q, n),
    ensures
        reasoning_section(Some((p, total))) == reasoning_section(Some((q, total))),
{
    lemma_same_rows_same_result(p, q);
}

/// The derived facts, when given, list their predicates in increasing name
/// order.
pub open spec fn facts_in_order(r: Option<(Seq<(Chars, Seq<Seq<Chars>>)>, nat)>) -> bool {
    match r {
        Some((ps, _)) => strictly_sorted(names(ps)),
        None => true,
    }
}

/// Equal derived facts give an equal prompt and an equal content hash,
/// whatever order they were recorded in: two reasoning results in name
/// order that hold the same rows for every predicate, with the same total,
/// make the same prompt.
pub proof fn lemma_same_facts_same_prompt(
    s: SnapshotV,
    chapter: Chars,
    is: Seq<DramaticIntentV>,
    notes: DirectorNotes,
    pacing: PacingPercents,
    p: Seq<(Chars, Seq<Seq<Chars>>)>,
    q: Seq<(Chars, Seq<Seq<Chars>>)>,
    total: nat,
    prev: Option<Chars>,
    outline: Option<Chars>,
)
    requires
        strictly_sorted(names(p)),
        strictly_sorted(names(q)),
        forall|n: Chars| lookup(p, n) == lookup(q, n),
    ensures
        prompt_spec(s, chapter, is, notes, pacing, Some((p, total)), prev, outline) == prompt_spec(
            s,
            chapter,
            is,
            notes,
            pacing,
            Some((q, total)),
            prev,
            outline,
        ),
        sha256_hex(prompt_spec(s, chapter, is, notes, pacing, Some((p, total)), prev, outline)) == sha256_hex(
            prompt_spec(s, chapter, is, notes, pacing, Some((q, total)), prev, outline),
        ),
{
    lemma_same_rows_same_result(p, q);
}

pub open spec fn reasoning_facts(r: Option<&ReasoningResult>) -> Option<(Seq<(Chars, Seq<Seq<Chars>>)>, nat)> {
    match r {
        Some(x) => Some((x@, x.total_spec() as nat)),
        None => None,
    }
}

fn push_rows(out: &mut String, rows: &Vec<Vec<String>>)
    ensures
        final(out)@ == old(out)@ + cat(rows_view(rows@), row_line()),
{
    let ghost rv = rows_view(rows@);
    let ghost base = out@;
    let mut k: usize = 0;
    while k < rows.len()
        invariant
            k <= rows@.len(),
            rv == rows_view(rows@),
            out@ == base + cat(rv.take(k as int), row_line()),
        decreases rows@.len() - k,
    {
        proof {
            lemma_cat_step(rv, row_line(), k as int);
            assert(rv[k as int] == views(rows@[k as int]@));
        }
        push_str(out, "- ");
        push_joined(out, &rows[k], ", ");
        push_str(out, "\n");
        k += 1;
    }
    assert(rv.take(rows@.len() as int) == rv);
}

fn push_reasoning(out: &mut String, reasoning: Option<&ReasoningResult>)
    ensures
        final(out)@ == old(out)@ + reasoning_section(reasoning_facts(reasoning)),
        facts_in_order(reasoning_facts(reasoning)),
{
    match reasoning {
        None => {},
        Some(r) => {
            if r.total_facts() > 0 {
                push_str(out, "\n## 推理结果\n\n");
                let ghost ps = r@;
                let ghost base = out@;
                let mut k: usize = 0;
                while k < r.predicate_count()
                    invariant
                        k <= ps.len(),
                        ps == r@,
                        out@ == base + cat(ps.take(k as int), predicate_block()),
                    decreases ps.len() - k,
                {
                    let (name, rows) = r.predicate_at(k);
                    proof {
                        lemma_cat_step(ps, predicate_block(), k as int);
                    }
                    if rows.len() > 0 {
                        let ghost before = out@;
                        push_str(out, "### ");
                        push_str(out, name.as_str());
                        push_str(out, "\n");
                        push_rows(out, rows);
                        push_str(out, "\n");
                        assert(out@ =~= before + predicate_block()(ps[k as int]));
                    } else {
                        assert(predicate_block()(ps[k as int]) =~= Seq::<char>::empty());
                    }
                    k += 1;
                }
                assert(ps.take(ps.len() as int) == ps);
            }
        },
    }
}

// ── Effects ──────────────────────────────────────────────────────

pub open spec fn effect_line(mark: Chars) -> spec_fn(OpV) -> Chars {
    |o: OpV| "- "@ + mark + " "@ + describe_spec(o) + "\n"@
}

pub open spec fn effects_section(title: Chars, mark: Chars, ops: Seq<OpV>) -> Chars {
    titled(title, cat(ops, effect_line(mark)), ops.len() > 0)
}

fn push_effects(out: &mut String, title: &str, mark: &str, ops: &Vec<Op>)
    ensures
        final(out)@ == old(out)@ + effects_section(title@, mark@, op_views(ops@)),
{
    if ops.len() == 0 {
        return;
    }
    let ghost ov = op_views(ops@);
    let ghost start = out@;
    push_str(out, title);
    let ghost base = out@;
    let mut k: usize = 0;
    while k < ops.len()
        invariant
            k <= ops@.len(),
            ov == op_views(ops@),
            out@ == base + cat(ov.take(k as int), effect_line(mark@)),
        decreases ops@.len() - k,
    {
        proof {
            lemma_cat_step(ov, effect_line(mark@), k as int);
            assert(ov[k as int] == ops@[k as int]@);
        }
        push_str(out, "- ");
        push_str(out, mark);
        push_str(out, " ");
        push_str(out, ops[k].describe().as_str());
        push_str(out, "\n");
        k += 1;
    }
    assert(ov.take(ops@.len() as int) == ov);
    push_str(out, "\n");
    assert(out@ =~= start + effects_section(title@, mark@, ov));
}

// ── The whole prompt ─────────────────────────────────────────────

/// The pacing shares of the chapter as whole percentages, written out.
#[derive(Debug)]
pub struct PacingPercents {
    pub build_up: String,
    pub climax: String,
    pub resolution: String,
}

pub open spec fn opt_line(label: Chars, o: Option<Chars>) -> Chars {
    match o {
        Some(v) => label + v + "\n"@,
        None => Seq::empty(),
    }
}

pub open spec fn opt_block(title: Chars, o: Option<Chars>) -> Chars {
    match o {
        Some(v) => title + v + "\n\n"@,
        None => Seq::empty(),
    }
}

/// The chapter, its point of view, tone and length, then the previous
/// summary and the outline when given.
pub open spec fn header_spec(chapter: Chars, notes: DirectorNotes, prev: Option<Chars>, outline: Option<Chars>) -> Chars {
    "# 小说写作上下文\n\n"@ + "当前章节: "@ + chapter + "\n"@ + opt_line("主视角 (POV): "@, ov(notes.pov)) + opt_line(
        "基调: "@,
        ov(notes.tone),
    ) + opt_line("情绪弧: "@, ov(notes.tone_arc)) + match notes.word_count {
        Some(wc) => "目标字数: ~"@ + dec(wc as nat) + "\n"@,
        None => Seq::empty(),
    } + "\n"@ + opt_block("## 前情回顾\n\n"@, prev) + opt_block("## 本章大纲\n\n"@, outline)
}

/// The intents, numbered from one.
pub open spec fn numbered(is: Seq<DramaticIntentV>) -> Chars
    decreases is.len(),
{
    if is.len() == 0 {
        Seq::empty()
    } else {
        numbered(is.drop_last()) + dec(is.len()) + ". "@ + summary_spec(is.last()) + "\n"@
    }
}

pub open spec fn star_line() -> spec_fn(Chars) -> Chars {
    |h: Chars| "★ "@ + h + "\n"@
}

pub open spec fn pacing_spec(p: PacingPercents) -> Chars {
    "## 节奏\n\n铺垫 "@ + p.build_up@ + "% → 高潮 "@ + p.climax@ + "% → 收尾 "@ + p.resolution@ + "%\n\n"@
}

pub open spec fn instructions_spec(pov: Option<Chars>) -> Chars {
    "## 写作要求\n\n"@ + opt_line2(pov) + "1. 遵守推理结果\n2. 角色行为符合 BDI\n3. 延续前情线索\n4. 围绕戏剧性目标展开\n5. 中文, 武侠/玄幻文风\n"@
}

pub open spec fn opt_line2(pov: Option<Chars>) -> Chars {
    match pov {
        Some(v) => "0. 视角限制: 严格遵循 "@ + v + " 的主视角\n"@,
        None => Seq::empty(),
    }
}

pub open spec fn character_blocks(pov: Option<Chars>) -> spec_fn(EntityV) -> Chars {
    |e: EntityV| character_block(e, pov)
}

/// The plan of the chapter: intents, highlights, pacing.
pub open spec fn plan_spec(is: Seq<DramaticIntentV>, notes: DirectorNotes, pacing: PacingPercents) -> Chars {
    titled("## 本章戏剧性目标\n\n"@, numbered(is), is.len() > 0) + titled(
        "## 关键节拍\n\n"@,
        cat(views(notes.highlights@), star_line()),
        notes.highlights@.len() > 0,
    ) + pacing_spec(pacing)
}

/// The world: characters, goals, secrets and places as the point of view
/// allows.
pub open spec fn world_spec(s: SnapshotV, pov: Option<Chars>) -> Chars {
    cat(s.entities.filter(crate::snapshot::char_pred()), character_blocks(pov)) + goals_section(s.goal_entities, pov)
        + secrets_section(s.secrets, pov) + cat(s.entities.filter(crate::snapshot::loc_pred()), location_line())
}

/// The full prompt text.
pub open spec fn prompt_spec(
    s: SnapshotV,
    chapter: Chars,
    is: Seq<DramaticIntentV>,
    notes: DirectorNotes,
    pacing: PacingPercents,
    reasoning: Option<(Seq<(Chars, Seq<Seq<Chars>>)>, nat)>,
    prev: Option<Chars>,
    outline: Option<Chars>,
) -> Chars {
    header_spec(chapter, notes, prev, outline) + plan_spec(is, notes, pacing) + world_spec(s, ov(notes.pov))
        + reasoning_section(reasoning) + effects_section("## 必须体现的状态变化\n\n"@, "✓"@, op_views(notes.required_effects@))
        + effects_section("## 建议的状态变化\n\n"@, "~"@, op_views(notes.suggested_effects@)) + instructions_spec(
        ov(notes.pov),
    )
}

pub(crate) fn push_opt_line(out: &mut String, label: &str, o: &Option<String>)
    ensures
        final(out)@ == old(out)@ + opt_line(label@, ov(*o)),
{
    match o {
        Some(v) => {
            push_str(out, label);
            push_str(out, v.as_str());
            push_str(out, "\n");
        },
        None => {},
    }
}

fn push_opt_block(out: &mut String, title: &str, o: Option<&str>)
    ensures
        final(out)@ == old(out)@ + opt_block(title@, opt_view(o)),
{
    match o {
        Some(v) => {
            push_str(out, title);
            push_str(out, v);
            push_str(out, "\n\n");
        },
        None => {},
    }
}

fn push_header(out: &mut String, chapter: &str, notes: &DirectorNotes, prev: Option<&str>, outline: Option<&str>)
    ensures
        final(out)@ == old(out)@ + header_spec(chapter@, *notes, opt_view(prev), opt_view(outline)),
{
    let ghost start = out@;
    push_str(out, "# 小说写作上下文\n\n");
    push_str(out, "当前章节: ");
    push_str(out, chapter);
    push_str(out, "\n");
    push_opt_line(out, "主视角 (POV): ", &notes.pov);
    push_opt_line(out, "基调: ", &notes.tone);
    push_opt_line(out, "情绪弧: ", &notes.tone_arc);
    let ghost before_wc = out@;
    match notes.word_count {
        Some(wc) => {
            push_str(out, "目标字数: ~");
            push_dec(out, wc as u64);
            push_str(out, "\n");
        },
        None => {},
    }
    push_str(out, "\n");
    push_opt_block(out, "## 前情回顾\n\n", prev);
    push_opt_block(out, "## 本章大纲\n\n", outline);
    assert(out@ =~= start + header_spec(chapter@, *notes, opt_view(prev), opt_view(outline)));
}

fn push_intents(out: &mut String, intents: &Vec<DramaticIntent>)
    ensures
        final(out)@ == old(out)@ + titled("## 本章戏剧性目标\n\n"@, numbered(intent_views(intents@)), intents@.len() > 0),
{
    let ghost start = out@;
    let ghost iv = intent_views(intents@);
    if intents.len() > 0 {
        push_str(out, "## 本章戏剧性目标\n\n");
        let ghost base = out@;
        let mut i: usize = 0;
        while i < intents.len()
            invariant
                i <= intents@.len(),
                iv == intent_views(intents@),
                out@ == base + numbered(iv.take(i as int)),
            decreases intents@.len() - i,
        {
            proof {
                assert(iv.take(i + 1).drop_last() == iv.take(i as int));
                assert(iv.take(i + 1).last() == intents@[i as int]@);
            }
            push_dec(out, (i + 1) as u64);
            push_str(out, ". ");
            push_str(out, intents[i].summary().as_str());
            push_str(out, "\n");
            i += 1;
        }
        assert(iv.take(intents@.len() as int) == iv);
        push_str(out, "\n");
        assert(out@ =~= start + titled("## 本章戏剧性目标\n\n"@, numbered(iv), true));
    }
}

fn push_highlights(out: &mut String, highlights: &Vec<String>)
    ensures
        final(out)@ == old(out)@ + titled("## 关键节拍\n\n"@, cat(views(highlights@), star_line()), highlights@.len() > 0),
{
    let ghost start = out@;
    let ghost hv = views(highlights@);
    if highlights.len() > 0 {
        push_str(out, "## 关键节拍\n\n");
        let ghost base = out@;
        let mut k: usize = 0;
        while k < highlights.len()
            invariant
                k <= highlights@.len(),
                hv == views(highlights@),
                out@ == base + cat(hv.take(k as int), star_line()),
            decreases highlights@.len() - k,
        {
            proof {
                lemma_cat_step(hv, star_line(), k as int);
            }
            push_str(out, "★ ");
            push_str(out, highlights[k].as_str());
            push_str(out, "\n");
            k += 1;
        }
        assert(hv.take(highlights@.len() as int) == hv);
        push_str(out, "\n");
        assert(out@ =~= start + titled("## 关键节拍\n\n"@, cat(hv, star_line()), true));
    }
}

fn push_pacing(out: &mut String, pacing: &PacingPercents)
    ensures
        final(out)@ == old(out)@ + pacing_spec(*pacing),
{
    let ghost start = out@;
    push_str(out, "## 节奏\n\n铺垫 ");
    push_str(out, pacing.build_up.as_str());
    push_str(out, "% → 高潮 ");
    push_str(out, pacing.climax.as_str());
    push_str(out, "% → 收尾 ");
    push_str(out, pacing.resolution.as_str());
    push_str(out, "%\n\n");
    assert(out@ =~= start + pacing_spec(*pacing));
}

fn push_plan(out: &mut String, intents: &Vec<DramaticIntent>, notes: &DirectorNotes, pacing: &PacingPercents)
    ensures
        final(out)@ == old(out)@ + plan_spec(intent_views(intents@), *notes, *pacing),
{
    let ghost start = out@;
    push_intents(out, intents);
    let ghost a = out@;
    push_highlights(out, &notes.highlights);
    let ghost b = out@;
    push_pacing(out, pacing);
    assert(out@ =~= start + plan_spec(intent_views(intents@), *notes, *pacing));
}

fn push_characters(out: &mut String, chars: &Vec<&Entity>, pov: Option<&str>)
    ensures
        final(out)@ == old(out)@ + cat(entity_ref_views(chars@), character_blocks(opt_view(pov))),
{
    let ghost cv = entity_ref_views(chars@);
    let ghost base = out@;
    let mut i: usize = 0;
    while i < chars.len()
        invariant
            i <= chars@.len(),
            cv == entity_ref_views(chars@),
            out@ == base + cat(cv.take(i as int), character_blocks(opt_view(pov))),
        decreases chars@.len() - i,
    {
        proof {
            lemma_cat_step(cv, character_blocks(opt_view(pov)), i as int);
            assert(cv[i as int] == chars@[i as int]@);
        }
        render_character(out, chars[i], pov);
        i += 1;
    }
    assert(cv.take(chars@.len() as int) == cv);
}

fn push_locations(out: &mut String, locs: &Vec<&Entity>)
    ensures
        final(out)@ == old(out)@ + cat(entity_ref_views(locs@), location_line()),
{
    let ghost lv = entity_ref_views(locs@);
    let ghost base = out@;
    let mut k: usize = 0;
    while k < locs.len()
        invariant
            k <= locs@.len(),
            lv == entity_ref_views(locs@),
            out@ == base + cat(lv.take(k as int), location_line()),
        decreases locs@.len() - k,
    {
        proof {
            lemma_cat_step(lv, location_line(), k as int);
            assert(lv[k as int] == locs@[k as int]@);
        }
        push_location(out, locs[k]);
        k += 1;
    }
    assert(lv.take(locs@.len() as int) == lv);
}

#[verifier::spinoff_prover]
#[verifier::rlimit(30)]
fn push_world(out: &mut String, snapshot: &Snapshot, pov: Option<&str>)
    requires
        heights_ok(snapshot@.goal_entities),
    ensures
        final(out)@ == old(out)@ + world_spec(snapshot@, opt_view(pov)),
{
    let ghost start = out@;
    let chars = snapshot.characters();
    push_characters(out, &chars, pov);
    let ghost s1 = out@;
    push_goals(out, &snapshot.goal_entities, pov);
    let ghost s2 = out@;
    push_secrets(out, &snapshot.secrets, pov);
    let ghost s3 = out@;
    let locs = snapshot.locations();
    push_locations(out, &locs);
    assert(out@ =~= start + world_spec(snapshot@, opt_view(pov)));
}

fn push_instructions(out: &mut String, pov: Option<&str>)
    ensures
        final(out)@ == old(out)@ + instructions_spec(opt_view(pov)),
{
    let ghost start = out@;
    push_str(out, "## 写作要求\n\n");
    match pov {
        Some(v) => {
            push_str(out, "0. 视角限制: 严格遵循 ");
            push_str(out, v);
            push_str(out, " 的主视角\n");
        },
        None => {},
    }
    push_str(out, "1. 遵守推理结果\n2. 角色行为符合 BDI\n3. 延续前情线索\n4. 围绕戏剧性目标展开\n5. 中文, 武侠/玄幻文风\n");
    assert(out@ =~= start + instructions_spec(opt_view(pov)));
}

fn pov_of(notes: &DirectorNotes) -> (r: Option<&str>)
    ensures
        opt_view(r) == ov(notes.pov),
{
    match &notes.pov {
        Some(v) => Some(v.as_str()),
        None => None,
    }
}

/// The author's prompt for a chapter: the world as the point of view
/// allows, the director's plan, the derived facts and the effects to show.
pub fn render_prompt(
    snapshot: &Snapshot,
    chapter: &str,
    intents: &Vec<DramaticIntent>,
    notes: &DirectorNotes,
    pacing: &PacingPercents,
    reasoning: Option<&ReasoningResult>,
    prev_summary: Option<&str>,
    outline: Option<&str>,
) -> (r: String)
    requires
        heights_ok(snapshot@.goal_entities),
    ensures
        r@ == prompt_spec(
            snapshot@,
            chapter@,
            intent_views(intents@),
            *notes,
            *pacing,
            reasoning_facts(reasoning),
            opt_view(prev_summary),
            opt_view(outline),
        ),
        facts_in_order(reasoning_facts(reasoning)),
{
    let pov = pov_of(notes);
    let mut p = String::new();
    push_header(&mut p, chapter, notes, prev_summary, outline);
    let ghost a = p@;
    push_plan(&mut p, intents, notes, pacing);
    let ghost b = p@;
    push_world(&mut p, snapshot, pov);
    let ghost c = p@;
    push_reasoning(&mut p, reasoning);
    let ghost d = p@;
    push_effects(&mut p, "## 必须体现的状态变化\n\n", "✓", &notes.required_effects);
    push_effects(&mut p, "## 建议的状态变化\n\n", "~", &notes.suggested_effects);
    push_instructions(&mut p, pov);
    p
}

// ── Content hash ─────────────────────────────────────────────────

/// The SHA-256 digest of the UTF-8 bytes of a text, in lower-case hex.
pub uninterp spec fn sha256_hex(text: Seq<char>) -> Seq<char>;

pub open spec fn is_lower_hex(c: char) -> bool {
    ('0' <= c && c <= '9') || ('a' <= c && c <= 'f')
}

/// Calls `sha2::Sha256` (`new`, `update`, `finalize`) on the bytes of the
/// text and writes the 32-byte digest with `{:x}`. Claimed: the result is
/// the digest named `sha256_hex` of the text, 64 lower-case hex digits
/// (two per byte, as generic-array's `LowerHex` writes them).
#[verifier::external_body]
fn sha256_hex_of(text: &str) -> (r: String)
    ensures
        r@ == sha256_hex(text@),
        r@.len() == 64,
        forall|i: int| 0 <= i < r@.len() ==> is_lower_hex(#[trigger] r@[i]),
{
    let mut h = Sha256::new();
    h.update(text.as_bytes());
    format!("{:x}", h.finalize())
}

/// The complete prompt for the author.
#[derive(Debug)]
pub struct AuthorPrompt {
    pub chapter: String,
    pub pov: Option<String>,
    pub rendered: String,
    /// Hash of the rendered text: the same hash means the same prompt.
    pub content_hash: String,
}

impl AuthorPrompt {
    /// Render the prompt and hash it.
    pub fn build(
        snapshot: &Snapshot,
        chapter: &str,
        intents: &Vec<DramaticIntent>,
        notes: &DirectorNotes,
        pacing: &PacingPercents,
        reasoning: Option<&ReasoningResult>,
        prev_summary: Option<&str>,
        outline: Option<&str>,
    ) -> (r: AuthorPrompt)
        requires
            heights_ok(snapshot@.goal_entities),
        ensures
            r.chapter@ == chapter@,
            ov(r.pov) == ov(notes.pov),
            r.rendered@ == prompt_spec(
                snapshot@,
                chapter@,
                intent_views(intents@),
                *notes,
                *pacing,
                reasoning_facts(reasoning),
                opt_view(prev_summary),
                opt_view(outline),
            ),
            r.content_hash@ == sha256_hex(r.rendered@),
            r.content_hash@.len() == 64,
            facts_in_order(reasoning_facts(reasoning)),
    {
        let rendered = render_prompt(snapshot, chapter, intents, notes, pacing, reasoning, prev_summary, outline);
        let content_hash = sha256_hex_of(rendered.as_str());
        let pov = match &notes.pov {
            Some(v) => Some(v.clone()),
            None => None,
        };
        AuthorPrompt { chapter: crate::text::owned(chapter), pov, rendered, content_hash }
    }
}

} // verus!
