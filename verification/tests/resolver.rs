use ledger::drama::{DirectorNotes, DramaNode};
use ledger::entity::{Character, Entity, Location, Relationship};
use ledger::goal::{Goal, GoalEntity, GoalStatus};
use ledger::intent::{DramaticIntent, GoalOutcome, Timing};
use ledger::op::Op;
use ledger::prompt::{AuthorPrompt, PacingPercents, render_character, render_prompt};
use ledger::protocol::Deviation;
use ledger::reasoning::ReasoningResult;
use ledger::secret::{DramaticFunction, Secret};
use ledger::snapshot::Snapshot;
use ledger::validate::{Verdict, check_intent, validate};

fn ch(id: &str, name: Option<&str>, location: Option<&str>, beliefs: Vec<&str>, rels: Vec<Relationship>) -> Entity {
    Entity::Character(Character {
        id: id.into(),
        name: name.map(|s| s.to_string()),
        traits: vec![],
        beliefs: beliefs.into_iter().map(|s| s.to_string()).collect(),
        desires: vec![],
        intentions: vec![],
        location: location.map(|s| s.to_string()),
        relationships: rels,
        inventory: vec![],
        goals: vec![],
        tags: vec![],
        description: None,
    })
}

fn place(id: &str) -> Entity {
    Entity::Location(Location {
        id: id.into(),
        name: None,
        properties: vec![],
        connections: vec![],
        tags: vec![],
        description: None,
    })
}

fn confrontation(a: &str, b: &str, at: &str) -> DramaticIntent {
    DramaticIntent::Confrontation { between: vec![a.into(), b.into()], at: at.into(), depends_on: vec![] }
}

// ── Intents ──────────────────────────────────────────────────────

#[test]
fn summary_outputs() {
    assert!(confrontation("kian", "nova", "oasis_gate").summary().contains("kian vs nova"));
}

#[test]
fn summary_exact_forms() {
    assert_eq!(confrontation("kian", "nova", "gate").summary(), "对峙: kian vs nova @ gate");
    let s = DramaticIntent::SuspenseResolution { goal: "kian/survive".into(), expected_outcome: GoalOutcome::Blocked };
    assert_eq!(s.summary(), "悬念解决: kian/survive → Blocked");
    let t = DramaticIntent::TensionBuild { source: "风暴".into(), foreshadowing: vec![] };
    assert_eq!(t.summary(), "张力蓄积: 风暴");
}

#[test]
fn referenced_entities_from_confrontation() {
    let intent = confrontation("kian", "nova", "oasis_gate");
    let refs = intent.referenced_entities();
    assert!(refs.contains(&"kian"));
    assert!(refs.contains(&"nova"));
    assert!(refs.contains(&"oasis_gate"));
}

#[test]
fn referenced_entities_of_goal_and_tension() {
    let s = DramaticIntent::SuspenseResolution { goal: "kian/survive".into(), expected_outcome: GoalOutcome::Resolved };
    assert_eq!(s.referenced_entities(), vec!["kian"]);
    let t = DramaticIntent::TensionBuild { source: "x".into(), foreshadowing: vec![] };
    assert!(t.referenced_entities().is_empty());
    assert_eq!(Timing::default(), Timing::BuildUp);
}

// ── Protocol ─────────────────────────────────────────────────────

#[test]
fn deviation_can_be_created() {
    let d = Deviation {
        expected: Op::RemoveItem { entity: "kian".into(), item: "刀".into() },
        reason: "角色握紧了刀, 没有丢弃".into(),
        alternative: None,
    };
    assert_eq!(d.reason, "角色握紧了刀, 没有丢弃");
}

// ── Validation ───────────────────────────────────────────────────

fn make_snapshot() -> Snapshot {
    Snapshot::from_parts(
        "ch03",
        vec![ch("kian", None, Some("oasis_gate"), vec![], vec![]), ch("nova", None, Some("oasis_gate"), vec![], vec![]), place("oasis_gate")],
        vec![Secret {
            id: "oasis_truth".into(),
            content: "绿洲的能源来自活人".into(),
            known_by: vec![],
            revealed_to_reader: false,
            dramatic_function: Some(DramaticFunction::Reversal),
        }],
        vec![],
    )
}

#[test]
fn validate_accept_confrontation() {
    let verdict = validate(&make_snapshot(), &vec![confrontation("kian", "nova", "oasis_gate")], None);
    assert!(verdict.is_accept());
}

#[test]
fn validate_reject_missing_entity() {
    let verdict = validate(&make_snapshot(), &vec![confrontation("kian", "ghost", "oasis_gate")], None);
    assert!(!verdict.is_accept());
    assert_eq!(verdict.unmet_count(), 1);
}

#[test]
fn validate_secret_reveal() {
    let intents = vec![DramaticIntent::SecretReveal { secret: "oasis_truth".into(), to: vec!["kian".into()], reveal_to_reader: true }];
    assert!(validate(&make_snapshot(), &intents, None).is_accept());
}

#[test]
fn validate_secret_already_revealed() {
    let mut snap = make_snapshot();
    snap.secrets[0].known_by = vec!["kian".into()];
    let intents = vec![DramaticIntent::SecretReveal { secret: "oasis_truth".into(), to: vec!["kian".into()], reveal_to_reader: false }];
    assert!(!validate(&snap, &intents, None).is_accept());
}

#[test]
fn validate_render_reject() {
    let intents = vec![DramaticIntent::Reversal { target: "ghost_char".into(), trigger: "test".into(), secret: None, timing: Timing::Climax }];
    let text = validate(&make_snapshot(), &intents, None).render();
    assert!(text.contains("ghost_char"));
    assert!(text.contains("不存在"));
}

#[test]
fn validate_render_exact() {
    let accept = validate(&make_snapshot(), &vec![], None);
    assert_eq!(accept.render(), "✓ 所有戏剧性意图可满足");
    let intents = vec![DramaticIntent::GoalEmergence { owner: "ghost".into(), goal_id: "g".into(), want: "w".into(), problem: None }];
    let reject = validate(&make_snapshot(), &intents, None);
    assert_eq!(reject.render(), "✗ 1 个意图无法满足:\n  ⊘ 新目标: ghost/g — w — 角色 ghost 不存在\n");
}

#[test]
fn confrontation_needs_can_meet_when_reasoning_given() {
    let snap = make_snapshot();
    let intent = confrontation("kian", "nova", "oasis_gate");
    let empty = ReasoningResult::new();
    let issue = check_intent(&snap, &intent, Some(&empty)).unwrap();
    assert_eq!(issue.reason, "kian(oasis_gate) 与 nova(oasis_gate) 不在同一地点, 需要先 move 到 oasis_gate");
    let mut met = ReasoningResult::new();
    met.insert("can_meet".into(), vec![vec!["nova".into(), "kian".into()]]);
    assert!(check_intent(&snap, &intent, Some(&met)).is_none());
}

#[test]
fn suspense_goal_checks() {
    let goal = Goal {
        id: "survive".into(),
        want: "活下去".into(),
        problem: None,
        solution: None,
        status: GoalStatus::Active,
        blocked_by: vec![],
        conflicts_with: vec![],
        side_effects: vec![],
        children: vec![],
    };
    let snap = Snapshot::from_parts("ch01", vec![], vec![], vec![GoalEntity { entity_type: "character".into(), id: "kian".into(), name: None, goals: vec![goal] }]);
    let ok = DramaticIntent::SuspenseResolution { goal: "kian/survive".into(), expected_outcome: GoalOutcome::Resolved };
    assert!(check_intent(&snap, &ok, None).is_none());
    let missing = DramaticIntent::SuspenseResolution { goal: "kian/other".into(), expected_outcome: GoalOutcome::Failed };
    assert_eq!(check_intent(&snap, &missing, None).unwrap().reason, "目标 kian/other 不存在");
    let malformed = DramaticIntent::SuspenseResolution { goal: "survive".into(), expected_outcome: GoalOutcome::Failed };
    assert_eq!(check_intent(&snap, &malformed, None).unwrap().reason, "目标格式错误: survive (应为 owner/goal_id)");
    let tension = DramaticIntent::TensionBuild { source: "x".into(), foreshadowing: vec![] };
    assert!(check_intent(&snap, &tension, None).is_none());
    match validate(&snap, &vec![missing], None) {
        Verdict::Reject { unmet } => assert_eq!(unmet.len(), 1),
        Verdict::Accept => panic!("expected a rejection"),
    }
}

#[test]
fn suspense_needs_an_active_goal() {
    let goal = Goal {
        id: "g1".into(),
        want: "w".into(),
        problem: None,
        solution: None,
        status: GoalStatus::Resolved,
        blocked_by: vec![],
        conflicts_with: vec![],
        side_effects: vec![],
        children: vec![],
    };
    let snap = Snapshot::from_parts("ch03", vec![], vec![], vec![GoalEntity { entity_type: "character".into(), id: "kian".into(), name: None, goals: vec![goal] }]);
    let it = DramaticIntent::SuspenseResolution { goal: "kian/g1".into(), expected_outcome: GoalOutcome::Resolved };
    assert_eq!(check_intent(&snap, &it, None).unwrap().reason, "目标 kian/g1 不是活跃状态");
}

// ── Prompt ───────────────────────────────────────────────────────

fn prompt_snap() -> Snapshot {
    Snapshot::from_parts(
        "ch03",
        vec![
            ch("kian", Some("基安"), Some("oasis_gate"), vec!["绿洲有水"], vec![Relationship { target: "nova".into(), role: "wary".into(), trust: -1, affinity: 0, respect: 0 }]),
            ch("nova", Some("诺娃"), Some("oasis_gate"), vec!["入侵者必灭"], vec![]),
        ],
        vec![],
        vec![],
    )
}

fn notes() -> DirectorNotes {
    let mut n = DirectorNotes::default();
    n.pov = Some("kian".into());
    n.tone = Some("紧张".into());
    n
}

fn pacing() -> PacingPercents {
    PacingPercents { build_up: "40".into(), climax: "40".into(), resolution: "20".into() }
}

fn build(prev: Option<&str>, outline: Option<&str>) -> AuthorPrompt {
    AuthorPrompt::build(&prompt_snap(), "ch03", &vec![confrontation("kian", "nova", "oasis_gate")], &notes(), &pacing(), None, prev, outline)
}

#[test]
fn prompt_contains_sections() {
    let p = build(None, None);
    assert!(p.rendered.contains("当前章节: ch03"));
    assert!(p.rendered.contains("主视角 (POV): kian"));
    assert!(p.rendered.contains("基安"));
    assert!(p.rendered.contains("对峙"));
    assert!(p.rendered.contains("铺垫 40% → 高潮 40% → 收尾 20%"));
    assert!(p.rendered.contains("- 关系: wary(nova) [T-1A0R0]"));
}

#[test]
fn pov_hides_non_pov_bdi() {
    let p = build(None, None);
    assert!(p.rendered.contains("绿洲有水"));
    assert!(!p.rendered.contains("入侵者必灭"));
    assert!(p.rendered.contains("BDI: [已隐藏]"));
    assert!(p.rendered.contains("### 诺娃 (nova) [非视角角色]"));
}

#[test]
fn hash_deterministic() {
    assert_eq!(build(None, None).content_hash, build(None, None).content_hash);
}

#[test]
fn hash_changes_with_input() {
    assert_ne!(build(None, None).content_hash, build(Some("前情"), None).content_hash);
}

#[test]
fn hash_is_sha256_hex_of_prompt() {
    let p = build(None, None);
    assert_eq!(p.content_hash.len(), 64);
    assert!(p.content_hash.chars().all(|c| c.is_ascii_hexdigit() && !c.is_ascii_uppercase()));
    assert_ne!(p.content_hash, p.rendered);
    assert_eq!(p.chapter, "ch03");
    assert_eq!(p.pov.as_deref(), Some("kian"));
}

#[test]
fn outline_included() {
    let p = build(None, Some("潜入绿洲"));
    assert!(p.rendered.contains("本章大纲"));
    assert!(p.rendered.contains("潜入绿洲"));
}

#[test]
fn prompt_starts_and_ends_as_expected() {
    let text = render_prompt(&Snapshot::from_parts("x", vec![], vec![], vec![]), "ch01", &vec![], &DirectorNotes::default(), &pacing(), None, None, None);
    assert!(text.starts_with("# 小说写作上下文\n\n当前章节: ch01\n\n## 节奏\n\n"));
    assert!(text.ends_with("5. 中文, 武侠/玄幻文风\n"));
    assert!(!text.contains("0. 视角限制"));
}

#[test]
fn prompt_lists_derived_facts() {
    let mut r = ReasoningResult::new();
    r.insert("can_meet".into(), vec![vec!["kian".into(), "nova".into()]]);
    r.insert("empty".into(), vec![]);
    r.set_total_facts(1);
    let text = render_prompt(&prompt_snap(), "ch03", &vec![], &notes(), &pacing(), Some(&r), None, None);
    assert!(text.contains("\n## 推理结果\n\n### can_meet\n- kian, nova\n\n"));
    assert!(!text.contains("### empty"));
}

#[test]
fn default_drama_node_is_valid() {
    let node = DramaNode {
        chapter: "ch99".into(),
        dramatic_intents: vec![],
        pacing: pacing(),
        director_notes: DirectorNotes::default(),
    };
    let rendered = node.render();
    assert!(rendered.contains("ch99"));
}

#[test]
fn render_includes_intents() {
    let node = DramaNode {
        chapter: "ch03".into(),
        dramatic_intents: vec![
            DramaticIntent::Confrontation {
                between: vec!["kian".into(), "nova".into()],
                at: "oasis_gate".into(),
                depends_on: vec![],
            },
            DramaticIntent::SuspenseResolution {
                goal: "kian/survive_drought".into(),
                expected_outcome: GoalOutcome::Blocked,
            },
        ],
        pacing: pacing(),
        director_notes: DirectorNotes::default(),
    };
    let rendered = node.render();
    assert!(rendered.contains("kian vs nova"));
    assert!(rendered.contains("悬念解决"));
}

#[test]
fn drama_render_exact_text() {
    let mut notes = DirectorNotes::default();
    notes.pov = Some("kian".into());
    notes.highlights = vec!["门开了".into()];
    let node = DramaNode { chapter: "ch01".into(), dramatic_intents: vec![], pacing: pacing(), director_notes: notes };
    assert_eq!(
        node.render(),
        "═══ Drama: ch01 ═══\n\nPOV: kian\n节奏: build_up=40% climax=40% resolution=20%\n\n关键节拍:\n  ★ 门开了\n\n"
    );
}

#[test]
fn prompt_hash_ignores_recording_order() {
    let mut r1 = ReasoningResult::new();
    r1.insert("enemy".into(), vec![vec!["kian".into(), "nova".into()]]);
    r1.insert("can_meet".into(), vec![vec!["kian".into(), "nova".into()]]);
    r1.set_total_facts(2);
    let mut r2 = ReasoningResult::new();
    r2.insert("can_meet".into(), vec![vec!["kian".into(), "nova".into()]]);
    r2.insert("enemy".into(), vec![vec!["kian".into(), "nova".into()]]);
    r2.set_total_facts(2);
    let intents = vec![confrontation("kian", "nova", "oasis_gate")];
    let a = AuthorPrompt::build(&prompt_snap(), "ch03", &intents, &notes(), &pacing(), Some(&r1), None, None);
    let b = AuthorPrompt::build(&prompt_snap(), "ch03", &intents, &notes(), &pacing(), Some(&r2), None, None);
    assert_eq!(a.content_hash, b.content_hash);
    assert!(a.rendered.contains("### can_meet\n- kian, nova\n\n### enemy\n- kian, nova\n\n"));
}

#[test]
fn non_pov_character_hides_beliefs() {
    let mut nova = ch("nova", Some("诺娃"), Some("oasis_gate"), vec!["入侵者必灭"], vec![]);
    if let Entity::Character(c) = &mut nova {
        c.traits = vec!["猎手".to_string()];
    }
    let mut other = ch("nova", Some("诺娃"), Some("oasis_gate"), vec![], vec![]);
    if let Entity::Character(c) = &mut other {
        c.traits = vec!["猎手".to_string()];
        c.beliefs = vec!["别的信念".to_string()];
        c.desires = vec!["别的欲望".to_string()];
    }
    let mut p1 = String::new();
    render_character(&mut p1, &nova, Some("kian"));
    assert_eq!(p1, "### 诺娃 (nova) [非视角角色]\n- 特质: 猎手\n- 位置: oasis_gate\n- BDI: [已隐藏]\n\n");
    let mut p2 = String::new();
    render_character(&mut p2, &other, Some("kian"));
    assert_eq!(p1, p2);
}
