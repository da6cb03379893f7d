use ledger::card::{DraftSummary, PovCategory, PovDraft, Progress, draft_summary, split_frontmatter};
use ledger::card_writer::rewrite_frontmatter;
use ledger::entity::{Character, Entity, filter_by_tags};
use ledger::goal::{Goal, GoalEntity, GoalStatus, find_active_conflicts, find_suspense, goals_to_datalog};
use ledger::secret::{DramaticFunction, NarrativeTechnique, Secret, secrets_to_datalog};
use ledger::text::quote;

// ── Cards ────────────────────────────────────────────────────────

#[test]
fn split_frontmatter_basic() {
    let raw = "---\nid: kian\ntype: character\n---\n# Kian\nSome description.";
    let (yaml, body) = split_frontmatter(raw).unwrap();
    assert_eq!(yaml, "id: kian\ntype: character");
    assert_eq!(body, "# Kian\nSome description.");
}

#[test]
fn split_frontmatter_no_body() {
    let raw = "---\nid: kian\n---\n";
    let (yaml, body) = split_frontmatter(raw).unwrap();
    assert_eq!(yaml, "id: kian");
    assert_eq!(body, "");
}

#[test]
fn split_frontmatter_missing() {
    assert!(split_frontmatter("# Just markdown").is_none());
}

#[test]
fn split_frontmatter_leading_space_and_unclosed() {
    let (yaml, body) = split_frontmatter("  \n---\nid: a\n---\nbody").unwrap();
    assert_eq!(yaml, "id: a");
    assert_eq!(body, "body");
    assert!(split_frontmatter("---\nid: a\nno close").is_none());
}

#[test]
fn rewrite_preserves_body() {
    let raw = "---\nid: kian\nlocation: sector_4\n---\n\n# 基安\n\n前星联安全顾问。\n";
    let updated = rewrite_frontmatter(raw, "id: kian\nlocation: the_spire\n");
    assert!(updated.contains("location: the_spire"));
    assert!(updated.contains("# 基安"));
    assert!(updated.contains("前星联安全顾问"));
}

#[test]
fn rewrite_no_existing_frontmatter() {
    let raw = "# Just markdown\n";
    let updated = rewrite_frontmatter(raw, "id: kian\n");
    assert!(updated.starts_with("---\n"));
    assert!(updated.contains("id: kian"));
    assert!(updated.contains("# Just markdown"));
}

#[test]
fn rewrite_exact_output() {
    assert_eq!(rewrite_frontmatter("---\na: 1\n---\nbody", "a: 2\n"), "---\na: 2\n---\n\nbody\n");
    assert_eq!(rewrite_frontmatter("", "a: 2\n"), "---\na: 2\n---\n");
}

#[test]
fn pov_category_names() {
    assert_eq!(PovCategory::Pov.dir_name(), "pov");
    assert_eq!(PovCategory::Timeline.dir_name(), "timeline");
    assert_eq!(PovCategory::Outsider.label(), "路人视角");
    assert_eq!(PovCategory::all().len(), 3);
}

#[test]
fn draft_summary_sorts_into_categories() {
    let d = |name: &str, category: PovCategory| PovDraft { name: name.into(), category, text: String::new() };
    let summary = draft_summary(vec![d("chen", PovCategory::Pov), d("street", PovCategory::Outsider), d("li", PovCategory::Pov)]);
    assert_eq!(summary.pov, vec!["chen", "li"]);
    assert!(summary.timeline.is_empty());
    assert_eq!(summary.total(), 3);
    assert!(!summary.has_all_categories());
}

#[test]
fn progress_records_and_resets() {
    let mut p = Progress::default();
    p.record_context("kian");
    p.record_context("kian");
    p.record_context("nova");
    p.record_suggest();
    assert_eq!(p.context_checked, vec!["kian", "nova"]);
    assert!(p.suggest_ran);
    p.sync_drafts(DraftSummary { pov: vec!["a".into()], timeline: vec!["b".into()], outsider: vec!["c".into()] });
    assert!(p.drafts.has_all_categories());
    p.reset();
    assert!(p.context_checked.is_empty());
    assert!(!p.suggest_ran);
    assert_eq!(p.drafts.total(), 0);
}

// ── Entities ─────────────────────────────────────────────────────

fn make_character() -> Entity {
    Entity::Character(Character {
        id: "kian".into(),
        name: Some("基安".into()),
        traits: vec!["废土拾荒者".into(), "极其渴望水源".into()],
        beliefs: vec!["绿洲的财阀藏匿了世界上最后一条干净的地下水脉".into()],
        desires: vec![],
        intentions: vec![],
        location: Some("wasteland".into()),
        relationships: vec![],
        inventory: vec!["旧式防毒面具".into(), "电磁短刀".into()],
        goals: vec![],
        tags: vec!["ch01".into(), "ch02".into()],
        description: None,
    })
}

#[test]
fn entity_to_datalog_character() {
    let e = make_character();
    let facts = e.to_datalog();
    assert!(facts.contains(&"character(kian).".to_string()));
    assert!(facts.contains(&"at(kian, wasteland).".to_string()));
    assert!(facts.iter().any(|f| f.starts_with("trait(kian,")));
    assert!(facts.iter().any(|f| f.starts_with("has(kian,")));
}

#[test]
fn filter_by_tags_empty_includes_all() {
    let filtered = filter_by_tags(vec![make_character()], &vec![]);
    assert_eq!(filtered.len(), 1);
}

#[test]
fn filter_by_tags_matching() {
    let filtered = filter_by_tags(vec![make_character()], &vec!["ch01".to_string()]);
    assert_eq!(filtered.len(), 1);
}

#[test]
fn filter_by_tags_no_match() {
    let filtered = filter_by_tags(vec![make_character()], &vec!["ch99".to_string()]);
    assert_eq!(filtered.len(), 0);
}

#[test]
fn quote_simple_id() {
    assert_eq!(quote("kian"), "kian");
    assert_eq!(quote("wasteland"), "wasteland");
}

#[test]
fn quote_unicode() {
    assert_eq!(quote("废土拾荒者"), "\"废土拾荒者\"");
}

#[test]
fn quote_escapes_inner_quotes() {
    assert_eq!(quote("say \"hi\""), "\"say \\\"hi\\\"\"");
}

// ── Goals ────────────────────────────────────────────────────────

fn goal(id: &str, want: &str, problem: Option<&str>, conflicts_with: Vec<&str>) -> Goal {
    Goal {
        id: id.into(),
        want: want.into(),
        problem: problem.map(|s| s.to_string()),
        solution: None,
        status: GoalStatus::Active,
        blocked_by: vec![],
        conflicts_with: conflicts_with.into_iter().map(|s| s.to_string()).collect(),
        side_effects: vec![],
        children: vec![],
    }
}

fn make_goal_entities() -> Vec<GoalEntity> {
    vec![
        GoalEntity {
            entity_type: "character".into(),
            id: "kian".into(),
            name: Some("基安".into()),
            goals: vec![goal("survive_drought", "找到干净水源生存下去", Some("荒野污染严重"), vec!["nova/harvest_intruder"])],
        },
        GoalEntity {
            entity_type: "character".into(),
            id: "nova".into(),
            name: Some("诺娃".into()),
            goals: vec![goal("harvest_intruder", "猎杀入侵者", None, vec!["kian/survive_drought"])],
        },
    ]
}

#[test]
fn find_suspense_active_no_solution() {
    let suspense = find_suspense(&make_goal_entities());
    assert_eq!(suspense.len(), 2);
}

#[test]
fn find_active_conflicts_bidirectional() {
    let conflicts = find_active_conflicts(&make_goal_entities());
    assert_eq!(conflicts.len(), 1);
}

#[test]
fn goals_to_datalog_generates_facts() {
    let facts = goals_to_datalog(&make_goal_entities());
    assert!(facts.iter().any(|f| f.contains("want(kian,")));
    assert!(facts.iter().any(|f| f.contains("conflicts(kian,")));
}

// ── Secrets ──────────────────────────────────────────────────────

fn make_secret() -> Secret {
    Secret {
        id: "oasis_truth".into(),
        content: "绿洲的能源来自活人培养皿".into(),
        known_by: vec![],
        revealed_to_reader: false,
        dramatic_function: Some(DramaticFunction::Reversal),
    }
}

#[test]
fn classify_suspense() {
    assert_eq!(make_secret().classify(), NarrativeTechnique::Suspense);
}

#[test]
fn classify_dramatic_irony_after_reveal() {
    let mut s = make_secret();
    s.reveal_to("kian");
    s.reveal_to_reader();
    assert_eq!(s.classify(), NarrativeTechnique::DramaticIrony);
}

#[test]
fn classify_hidden_advantage() {
    let mut s = make_secret();
    s.reveal_to("kian");
    assert_eq!(s.classify(), NarrativeTechnique::HiddenAdvantage);
}

#[test]
fn reveal_is_idempotent() {
    let mut s = make_secret();
    s.reveal_to("kian");
    s.reveal_to("kian");
    assert_eq!(s.known_by.len(), 1);
}

#[test]
fn secrets_to_datalog_generates_facts() {
    let facts = secrets_to_datalog(&vec![make_secret()]);
    assert!(facts.iter().any(|f| f == "secret(oasis_truth)."));
}

#[test]
fn rewrite_twice_keeps_the_body() {
    let raw = "---\nid: kian\n---\n# Kian\n";
    let r1 = rewrite_frontmatter(raw, "id: nova\n");
    assert_eq!(r1, "---\nid: nova\n---\n\n# Kian\n");
    assert_eq!(rewrite_frontmatter(&r1, "id: nova\n"), r1);
}

#[test]
fn card_body_becomes_description() {
    assert_eq!(ledger::card::card_description("\n  前星联安全顾问。\n\n"), Some("前星联安全顾问。".to_string()));
    assert_eq!(ledger::card::card_description(" \n\t\n"), None);
    assert_eq!(ledger::card::card_description(""), None);
}

#[test]
fn content_node_directories() {
    assert_eq!(ledger::card::content_node_dir("cards", "root"), "cards/content");
    assert_eq!(ledger::card::content_node_dir("cards/", "act1"), "cards/content/act1");
    assert_eq!(ledger::card::content_node_dir("cards", "act1/scene1"), "cards/content/act1/scene1");
    assert_eq!(ledger::card::content_node_dir("", "act1"), "content/act1");
}
