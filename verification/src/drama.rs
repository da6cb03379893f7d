//! The director's notes for a chapter: what must and may happen, and how
//! it should read.
use vstd::prelude::*;

use crate::goal::ov;
use crate::intent::{DramaticIntent, DramaticIntentV, summary_spec};
use crate::op::{Op, OpV, describe_spec, op_views};
use crate::prompt::{PacingPercents, opt_line, push_opt_line, titled};
use crate::text::{Chars, cat, dec, lemma_cat_step, push_dec, push_str, views};
use crate::validate::intent_views;

verus! {

/// Director's additional notes for the author.
#[derive(Debug)]
pub struct DirectorNotes {
    /// Effects that must appear in the chapter text.
    pub required_effects: Vec<Op>,
    /// Effects the author can include but is not held to.
    pub suggested_effects: Vec<Op>,
    /// Key moments to hit.
    pub highlights: Vec<String>,
    /// POV character for this chapter.
    pub pov: Option<String>,
    /// What must not be shown from that point of view.
    pub pov_constraints: Vec<String>,
    /// Tone / mood.
    pub tone: Option<String>,
    /// Tone arc (e.g., "tense → hopeful → devastating").
    pub tone_arc: Option<String>,
    /// Word count target.
    pub word_count: Option<usize>,
}

impl Default for DirectorNotes {
    fn default() -> (r: DirectorNotes)
        ensures
            r.required_effects@.len() == 0,
            r.suggested_effects@.len() == 0,
            r.highlights@.len() == 0,
            r.pov is None,
            r.pov_constraints@.len() == 0,
            r.tone is None,
            r.tone_arc is None,
            r.word_count is None,
    {
        DirectorNotes {
            required_effects: Vec::new(),
            suggested_effects: Vec::new(),
            highlights: Vec::new(),
            pov: None,
            pov_constraints: Vec::new(),
            tone: None,
            tone_arc: None,
            word_count: None,
        }
    }
}

/// A chapter's dramatic plan: what should happen, at what pace, and the
/// director's notes. The pacing shares are given as whole percentages.
#[derive(Debug)]
pub struct DramaNode {
    pub chapter: String,
    pub dramatic_intents: Vec<DramaticIntent>,
    pub pacing: PacingPercents,
    pub director_notes: DirectorNotes,
}

/// The intents, indented and numbered from one.
pub open spec fn listed(is: Seq<DramaticIntentV>) -> Chars
    decreases is.len(),
{
    if is.len() == 0 {
        Seq::empty()
    } else {
        listed(is.drop_last()) + "  "@ + dec(is.len()) + ". "@ + summary_spec(is.last()) + "\n"@
    }
}

pub open spec fn marked_op(mark: Chars) -> spec_fn(OpV) -> Chars {
    |o: OpV| "  "@ + mark + " "@ + describe_spec(o) + "\n"@
}

pub open spec fn marked_text(mark: Chars) -> spec_fn(Chars) -> Chars {
    |h: Chars| "  "@ + mark + " "@ + h + "\n"@
}

/// The plan as a human-readable summary.
pub open spec fn drama_text(
    chapter: Chars,
    is: Seq<DramaticIntentV>,
    pacing: PacingPercents,
    notes: DirectorNotes,
) -> Chars {
    "═══ Drama: "@ + chapter + " ═══\n\n"@ + opt_line("POV: "@, ov(notes.pov)) + opt_line("基调: "@, ov(notes.tone))
        + opt_line("情绪弧: "@, ov(notes.tone_arc)) + "节奏: build_up="@ + pacing.build_up@ + "% climax="@
        + pacing.climax@ + "% resolution="@ + pacing.resolution@ + "%\n\n"@ + titled(
        "戏剧性意图:\n"@,
        listed(is),
        is.len() > 0,
    ) + titled(
        "必须执行的 effects:\n"@,
        cat(op_views(notes.required_effects@), marked_op("✓"@)),
        notes.required_effects@.len() > 0,
    ) + titled(
        "建议的 effects:\n"@,
        cat(op_views(notes.suggested_effects@), marked_op("~"@)),
        notes.suggested_effects@.len() > 0,
    ) + titled("关键节拍:\n"@, cat(views(notes.highlights@), marked_text("★"@)), notes.highlights@.len() > 0)
}

fn push_listed(out: &mut String, intents: &Vec<DramaticIntent>)
    ensures
        final(out)@ == old(out)@ + titled("戏剧性意图:\n"@, listed(intent_views(intents@)), intents@.len() > 0),
{
    let ghost start = out@;
    let ghost iv = intent_views(intents@);
    if intents.len() > 0 {
        push_str(out, "戏剧性意图:\n");
        let ghost base = out@;
        let mut i: usize = 0;
        while i < intents.len()
            invariant
                i <= intents@.len(),
                iv == intent_views(intents@),
                out@ == base + listed(iv.take(i as int)),
            decreases intents@.len() - i,
        {
            proof {
                assert(iv.take(i + 1).drop_last() == iv.take(i as int));
                assert(iv.take(i + 1).last() == intents@[i as int]@);
            }
            push_str(out, "  ");
            push_dec(out, (i + 1) as u64);
            push_str(out, ". ");
            push_str(out, intents[i].summary().as_str());
            push_str(out, "\n");
            i += 1;
        }
        assert(iv.take(intents@.len() as int) == iv);
        push_str(out, "\n");
        assert(out@ =~= start + titled("戏剧性意图:\n"@, listed(iv), true));
    }
}

fn push_marked_ops(out: &mut String, title: &str, mark: &str, ops: &Vec<Op>)
    ensures
        final(out)@ == old(out)@ + titled(title@, cat(op_views(ops@), marked_op(mark@)), ops@.len() > 0),
{
    let ghost start = out@;
    let ghost ovs = op_views(ops@);
    if ops.len() > 0 {
        push_str(out, title);
        let ghost base = out@;
        let mut k: usize = 0;
        while k < ops.len()
            invariant
                k <= ops@.len(),
                ovs == op_views(ops@),
                out@ == base + cat(ovs.take(k as int), marked_op(mark@)),
            decreases ops@.len() - k,
        {
            proof {
                lemma_cat_step(ovs, marked_op(mark@), k as int);
                assert(ovs[k as int] == ops@[k as int]@);
            }
            push_str(out, "  ");
            push_str(out, mark);
            push_str(out, " ");
            push_str(out, ops[k].describe().as_str());
            push_str(out, "\n");
            k += 1;
        }
        assert(ovs.take(ops@.len() as int) == ovs);
        push_str(out, "\n");
        assert(out@ =~= start + titled(title@, cat(ovs, marked_op(mark@)), true));
    }
}

fn push_marked_texts(out: &mut String, title: &str, mark: &str, hs: &Vec<String>)
    ensures
        final(out)@ == old(out)@ + titled(title@, cat(views(hs@), marked_text(mark@)), hs@.len() > 0),
{
    let ghost start = out@;
    let ghost hv = views(hs@);
    if hs.len() > 0 {
        push_str(out, title);
        let ghost base = out@;
        let mut k: usize = 0;
        while k < hs.len()
            invariant
                k <= hs@.len(),
                hv == views(hs@),
                out@ == base + cat(hv.take(k as int), marked_text(mark@)),
            decreases hs@.len() - k,
        {
            proof {
                lemma_cat_step(hv, marked_text(mark@), k as int);
            }
            push_str(out, "  ");
            push_str(out, mark);
            push_str(out, " ");
            push_str(out, hs[k].as_str());
            push_str(out, "\n");
            k += 1;
        }
        assert(hv.take(hs@.len() as int) == hv);
        push_str(out, "\n");
        assert(out@ =~= start + titled(title@, cat(hv, marked_text(mark@)), true));
    }
}

impl DramaNode {
    /// Render as a human-readable summary.
    pub fn render(&self) -> (r: String)
        ensures
            r@ == drama_text(self.chapter@, intent_views(self.dramatic_intents@), self.pacing, self.director_notes),
    {
        let mut out = String::new();
        push_str(&mut out, "═══ Drama: ");
        push_str(&mut out, self.chapter.as_str());
        push_str(&mut out, " ═══\n\n");
        let ghost a = out@;
        push_opt_line(&mut out, "POV: ", &self.director_notes.pov);
        push_opt_line(&mut out, "基调: ", &self.director_notes.tone);
        push_opt_line(&mut out, "情绪弧: ", &self.director_notes.tone_arc);
        let ghost b = out@;
        push_str(&mut out, "节奏: build_up=");
        push_str(&mut out, self.pacing.build_up.as_str());
        push_str(&mut out, "% climax=");
        push_str(&mut out, self.pacing.climax.as_str());
        push_str(&mut out, "% resolution=");
        push_str(&mut out, self.pacing.resolution.as_str());
        push_str(&mut out, "%\n\n");
        let ghost c = out@;
        push_listed(&mut out, &self.dramatic_intents);
        push_marked_ops(&mut out, "必须执行的 effects:\n", "✓", &self.director_notes.required_effects);
        push_marked_ops(&mut out, "建议的 effects:\n", "~", &self.director_notes.suggested_effects);
        push_marked_texts(&mut out, "关键节拍:\n", "★", &self.director_notes.highlights);
        assert(out@ =~= drama_text(
            self.chapter@,
            intent_views(self.dramatic_intents@),
            self.pacing,
            self.director_notes,
        ));
        out
    }
}

} // verus!
