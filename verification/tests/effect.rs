use ledger::beat::Beat;
use ledger::diff::{SnapshotDiff, diff_entity};
use ledger::entity::{Character, Entity};
use ledger::history::{History, HistoryEntry};
use ledger::op::Op;
use ledger::snapshot::Snapshot;

fn character(id: &str, location: Option<&str>, traits: Vec<&str>, inventory: Vec<&str>) -> Entity {
    Entity::Character(Character {
        id: id.into(),
        name: None,
        traits: traits.into_iter().map(|s| s.to_string()).collect(),
        beliefs: vec![],
        desires: vec![],
        intentions: vec![],
        location: location.map(|s| s.to_string()),
        relationships: vec![],
        inventory: inventory.into_iter().map(|s| s.to_string()).collect(),
        goals: vec![],
        tags: vec![],
        description: None,
    })
}

fn beat(phase: &str, seq: u32, revises: Option<u32>, revision: u32, text: &str, effects: Vec<Op>) -> Beat {
    Beat {
        phase: phase.into(),
        seq,
        revises,
        revision,
        text: text.into(),
        effects,
        word_count: 0,
        created_by: "ai".into(),
        created_at: String::new(),
        revision_reason: None,
    }
}

fn make_entry(chapter: &str, seq: u32, op: Op) -> HistoryEntry {
    HistoryEntry { chapter: chapter.into(), seq, effect: op }
}

fn add_trait(entity: &str, value: &str) -> Op {
    Op::AddTrait { entity: entity.into(), value: value.into() }
}

// ── Beats ────────────────────────────────────────────────────────

#[test]
fn word_count_cjk() {
    assert_eq!(Beat::count_words("基安穿过了沙暴"), 7);
}

#[test]
fn word_count_mixed() {
    assert_eq!(Beat::count_words("kian 穿过了 oasis 的大门"), 8);
}

#[test]
fn word_count_latin() {
    assert_eq!(Beat::count_words("hello world foo"), 3);
}

#[test]
fn word_count_empty_and_punctuation() {
    assert_eq!(Beat::count_words(""), 0);
    assert_eq!(Beat::count_words("，。！"), 0);
    assert_eq!(Beat::count_words("a-b c"), 3);
}

#[test]
fn beat_filename() {
    let b = beat("setup", 3, None, 0, "", vec![]);
    assert_eq!(b.filename(), "setup_003.json");
    let br = beat("setup", 3, Some(3), 2, "", vec![]);
    assert_eq!(br.filename(), "setup_003_r2.json");
}

#[test]
fn beat_filename_large_seq() {
    let b = beat("climax", 1234, None, 0, "", vec![]);
    assert_eq!(b.filename(), "climax_1234.json");
}

#[test]
fn beat_next_seq_empty_and_after() {
    assert_eq!(Beat::next_seq(&vec![]), 1);
    let beats = vec![beat("p", 1, None, 0, "", vec![]), beat("p", 4, None, 0, "", vec![])];
    assert_eq!(Beat::next_seq(&beats), 5);
}

#[test]
fn beat_history_entries_keep_order() {
    let b = beat("ch01", 2, None, 0, "", vec![add_trait("kian", "x"), add_trait("kian", "y")]);
    let entries = b.as_history_entries();
    assert_eq!(entries.len(), 2);
    assert_eq!(entries[0].chapter, "ch01");
    assert_eq!(entries[0].seq, 200);
    assert_eq!(entries[1].seq, 201);
    assert_eq!(entries[1].effect, add_trait("kian", "y"));
}

// ── Diffs ────────────────────────────────────────────────────────

#[test]
fn diff_detects_trait_change() {
    let old = character("kian", Some("wasteland"), vec!["brave"], vec![]);
    let new = character("kian", Some("wasteland"), vec!["brave", "tracked"], vec![]);
    let diff = diff_entity(&old, &new);
    assert_eq!(diff.added_traits, vec!["tracked"]);
    assert!(diff.removed_traits.is_empty());
}

#[test]
fn diff_detects_location_change() {
    let old = character("kian", Some("wasteland"), vec![], vec![]);
    let new = character("kian", Some("oasis"), vec![], vec![]);
    let diff = diff_entity(&old, &new);
    assert_eq!(diff.location_change, Some((Some("wasteland".into()), Some("oasis".into()))));
}

#[test]
fn diff_empty_when_same() {
    let e = character("kian", Some("wasteland"), vec!["brave"], vec![]);
    let diff = diff_entity(&e, &e);
    assert!(diff.is_empty());
}

#[test]
fn snapshot_diff_empty() {
    let snap = Snapshot::from_parts("ch01", vec![character("kian", Some("wasteland"), vec![], vec![])], vec![], vec![]);
    let diff = SnapshotDiff::compute(&snap, &snap);
    assert!(diff.is_empty());
}

#[test]
fn snapshot_diff_added_and_removed() {
    let old = Snapshot::from_parts("ch01", vec![character("kian", None, vec![], vec![])], vec![], vec![]);
    let new = Snapshot::from_parts("ch02", vec![character("nova", None, vec![], vec![])], vec![], vec![]);
    let diff = SnapshotDiff::compute(&old, &new);
    assert_eq!(diff.added_entities, vec!["nova"]);
    assert_eq!(diff.removed_entities, vec!["kian"]);
    assert!(!diff.is_empty());
}

// ── History ──────────────────────────────────────────────────────

#[test]
fn chapters_in_order() {
    let history = History {
        entries: vec![
            make_entry("ch01", 1, add_trait("a", "x")),
            make_entry("ch02", 1, add_trait("a", "y")),
            make_entry("ch01", 2, add_trait("a", "z")),
        ],
    };
    assert_eq!(history.chapters(), vec!["ch01", "ch02"]);
}

#[test]
fn next_seq() {
    let history = History {
        entries: vec![make_entry("ch01", 1, add_trait("a", "x")), make_entry("ch01", 2, add_trait("a", "y"))],
    };
    assert_eq!(history.next_seq("ch01"), 3);
    assert_eq!(history.next_seq("ch02"), 1);
}

#[test]
fn replay_entities_applies_effects() {
    let mut entities = vec![character("kian", Some("wasteland"), vec![], vec!["刀"])];
    let history = History {
        entries: vec![
            make_entry("ch01", 1, Op::RemoveItem { entity: "kian".into(), item: "刀".into() }),
            make_entry("ch01", 2, Op::Move { entity: "kian".into(), location: "oasis".into() }),
        ],
    };
    History::replay_entities(&mut entities, &history, None);
    let c = entities[0].as_character().unwrap();
    assert!(c.inventory.is_empty());
    assert_eq!(c.location.as_deref(), Some("oasis"));
}

#[test]
fn replay_before_excludes_current() {
    let mut entities = vec![character("kian", Some("wasteland"), vec![], vec![])];
    let history = History {
        entries: vec![
            make_entry("ch01", 1, add_trait("kian", "trait_ch01")),
            make_entry("ch02", 1, add_trait("kian", "trait_ch02")),
        ],
    };
    History::replay_before(&mut entities, &history, "ch02");
    assert_eq!(entities[0].as_character().unwrap().traits, vec!["trait_ch01"]);
}

#[test]
fn replay_up_to_includes_that_chapter() {
    let mut entities = vec![character("kian", None, vec![], vec![])];
    let history = History {
        entries: vec![
            make_entry("ch01", 1, add_trait("kian", "a")),
            make_entry("ch02", 1, add_trait("kian", "b")),
            make_entry("ch03", 1, add_trait("kian", "c")),
        ],
    };
    History::replay_entities(&mut entities, &history, Some("ch02"));
    assert_eq!(entities[0].as_character().unwrap().traits, vec!["a", "b"]);
}

// ── Ops ──────────────────────────────────────────────────────────

#[test]
fn parse_remove_item() {
    let op = Op::parse("remove_item(kian, 电磁短刀)").unwrap();
    assert_eq!(op, Op::RemoveItem { entity: "kian".into(), item: "电磁短刀".into() });
}

#[test]
fn parse_add_rel() {
    let op = Op::parse("add_rel(kian, nova, trusts)").unwrap();
    assert_eq!(op, Op::AddRel { entity: "kian".into(), target: "nova".into(), rel: "trusts".into() });
}

#[test]
fn parse_reveal() {
    let op = Op::parse("reveal(oasis_truth, kian)").unwrap();
    assert_eq!(op, Op::Reveal { secret: "oasis_truth".into(), to: "kian".into() });
}

#[test]
fn parse_resolve_goal() {
    let op = Op::parse("resolve_goal(kian, survive_drought, 找到了地下水)").unwrap();
    assert_eq!(
        op,
        Op::ResolveGoal { owner: "kian".into(), goal_id: "survive_drought".into(), solution: "找到了地下水".into() }
    );
}

#[test]
fn parse_rejects_unknown_and_malformed() {
    assert!(Op::parse("teleport(kian, moon)").is_err());
    assert!(Op::parse("add_trait(kian)").is_err());
    assert!(Op::parse("add_trait kian").is_err());
}

#[test]
fn apply_to_entity() {
    let mut entity = character("kian", None, vec![], vec!["刀"]);
    let op = Op::RemoveItem { entity: "kian".into(), item: "刀".into() };
    assert!(op.apply_to_entity(&mut entity));
    assert!(entity.as_character().unwrap().inventory.is_empty());
}

#[test]
fn apply_to_wrong_entity() {
    let mut entity = character("nova", None, vec![], vec![]);
    let op = add_trait("kian", "test");
    assert!(!op.apply_to_entity(&mut entity));
}

#[test]
fn describe_chinese() {
    let op = Op::RemoveItem { entity: "kian".into(), item: "旧式防毒面具".into() };
    assert_eq!(op.describe(), "kian: 失去物品 \"旧式防毒面具\"");
}

#[test]
fn beat_revision_latest_only() {
    let beats = vec![
        beat("test", 2, None, 0, "second", vec![]),
        beat("test", 1, None, 0, "原始", vec![]),
        beat("test", 1, Some(1), 1, "修订版", vec![]),
    ];
    let latest = Beat::latest_revisions(beats);
    assert_eq!(latest.len(), 2);
    assert_eq!(latest[0].text, "修订版");
    assert_eq!(latest[0].revision, 1);
    assert_eq!(latest[1].text, "second");
}

#[test]
fn next_seq_empty() {
    assert_eq!(Beat::next_seq(&vec![]), 1);
}

#[test]
fn as_character_mut_changes_in_place() {
    let mut e = character("kian", Some("sector_4"), vec![], vec![]);
    if let Some(c) = e.as_character_mut() {
        c.location = Some("the_spire".into());
    }
    assert_eq!(e.as_character().unwrap().location.as_deref(), Some("the_spire"));
    let mut loc = Entity::Location(ledger::entity::Location { id: "gate".into(), name: None, properties: vec![], connections: vec![], tags: vec![], description: None });
    assert!(loc.as_character_mut().is_none());
}

#[test]
fn snapshot_diff_reads_both_ways() {
    let a = Snapshot::from_parts("ch01", vec![character("kian", None, vec![], vec![]), character("zed", None, vec![], vec![])], vec![], vec![]);
    let b = Snapshot::from_parts("ch02", vec![character("nova", None, vec![], vec![]), character("kian", Some("gate"), vec![], vec![]), character("ash", None, vec![], vec![])], vec![], vec![]);
    let ab = SnapshotDiff::compute(&a, &b);
    let ba = SnapshotDiff::compute(&b, &a);
    assert_eq!(ab.added_entities, vec!["ash", "nova"]);
    assert_eq!(ab.added_entities, ba.removed_entities);
    assert_eq!(ab.removed_entities, ba.added_entities);
    assert_eq!(ab.entity_diffs.len(), 1);
    assert_eq!(ab.entity_diffs[0].id, "kian");
    assert_eq!(ab.chapter, "ch02");
}

#[test]
fn large_seq_numbers_fit_while_effects_fit() {
    let empty = beat("p", 50_000_000, None, 0, "x", vec![]);
    assert!(empty.as_history_entries().is_empty());
    let one = beat("p", 42_949_672, None, 0, "x", vec![Op::RevealToReader { secret: "s".into() }]);
    let entries = one.as_history_entries();
    assert_eq!(entries.len(), 1);
    assert_eq!(entries[0].seq, 4_294_967_200);
}
