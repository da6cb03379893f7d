use ledger::beat::Beat;
use ledger::entity::{Character, Entity};
use ledger::op::Op;
use ledger::phase::{
    BeatPlan, ConstraintSource, DefinitionStatus, ExecutorConstraints, LayerStatus, LowBeat, StateAssertion,
};
use ledger::progress::{EvaluatorInput, PhasePlan};
use ledger::snapshot::Snapshot;

fn test_phase() -> PhasePlan {
    PhasePlan {
        id: "test".into(),
        constraint_source: Some(ConstraintSource::Manual),
        invariants: vec![StateAssertion { query: "entity_alive(kian)".into(), expected: "true".into() }],
        exit_state: vec![StateAssertion { query: "kian.location".into(), expected: "gate".into() }],
        has_min_entities: false,
        has_min_rel_density: false,
        intents: vec![],
        min_effects: Some(1),
        min_relationship_changes: None,
        executor: ExecutorConstraints {
            words: Some((1, 20)),
            per_beat: Some((1, 20)),
            pov: None,
            tone: None,
            tone_arc: None,
            writing_plan: vec![BeatPlan {
                label: "opening".into(),
                target_words: Some(5),
                effects: vec![],
                guidance: None,
            }],
        },
        has_min_avg_score: true,
        max_boring_beats: Some(0),
        required_tags: vec!["tension".into()],
    }
}

fn person(id: &str, name: &str) -> Entity {
    Entity::Character(Character {
        id: id.into(),
        name: Some(name.into()),
        traits: vec![],
        beliefs: vec![],
        desires: vec![],
        intentions: vec![],
        location: Some("gate".into()),
        relationships: vec![],
        inventory: vec![],
        goals: vec![],
        tags: vec![],
        description: None,
    })
}

fn test_snapshot() -> Snapshot {
    Snapshot {
        position: "test".into(),
        entities: vec![person("kian", "基安"), person("nova", "诺娃")],
        secrets: vec![],
        goal_entities: vec![],
    }
}

fn test_beats() -> Vec<Beat> {
    vec![Beat {
        phase: "test".into(),
        seq: 1,
        revises: None,
        revision: 0,
        text: "基安到了门前".into(),
        effects: vec![Op::AddTrait { entity: "kian".into(), value: "tense".into() }],
        word_count: 6,
        created_by: "ai".into(),
        created_at: String::new(),
        revision_reason: None,
    }]
}

fn no_readers() -> EvaluatorInput {
    EvaluatorInput {
        annotations_count: 0,
        avg_met: false,
        avg_summary: "0.0/3".into(),
        low_beats: vec![],
        present_tags: vec![],
    }
}

#[test]
fn definition_status_detects_partial() {
    let mut phase = test_phase();
    phase.invariants = vec![];
    phase.exit_state = vec![];
    phase.has_min_entities = false;
    phase.has_min_rel_density = false;
    assert_eq!(phase.definition_status(), DefinitionStatus::Partial);
}

#[test]
fn evaluate_progress_requires_annotations() {
    let phase = test_phase();
    let progress = phase.evaluate_progress(&test_snapshot(), &test_beats(), &no_readers(), true, &vec![]);
    assert!(!progress.complete);
    assert!(matches!(progress.evaluator.status, LayerStatus::NotChecked));
}

#[test]
fn evaluate_progress_passes_when_all_layers_pass() {
    let phase = test_phase();
    let readers = EvaluatorInput {
        annotations_count: 1,
        avg_met: true,
        avg_summary: "4.0/3".into(),
        low_beats: vec![],
        present_tags: vec!["tension".into()],
    };
    let progress = phase.evaluate_progress(&test_snapshot(), &test_beats(), &readers, true, &vec![]);
    assert!(progress.complete);
    assert!(progress.blockers.is_empty());
}

#[test]
fn definition_status_missing_and_derived() {
    let mut phase = test_phase();
    assert_eq!(phase.definition_status(), DefinitionStatus::Explicit);
    phase.constraint_source = Some(ConstraintSource::SynopsisDerived);
    assert_eq!(phase.definition_status(), DefinitionStatus::Derived);
    let empty = PhasePlan {
        id: "empty".into(),
        constraint_source: None,
        invariants: vec![],
        exit_state: vec![],
        has_min_entities: false,
        has_min_rel_density: false,
        intents: vec![],
        min_effects: None,
        min_relationship_changes: None,
        executor: ExecutorConstraints {
            words: None,
            per_beat: None,
            pov: None,
            tone: None,
            tone_arc: None,
            writing_plan: vec![],
        },
        has_min_avg_score: false,
        max_boring_beats: None,
        required_tags: vec![],
    };
    assert!(!empty.has_any_constraints());
    assert_eq!(empty.definition_status(), DefinitionStatus::Missing);
}

#[test]
fn evaluate_progress_reports_each_layer() {
    let mut phase = test_phase();
    phase.exit_state = vec![StateAssertion { query: "kian.location".into(), expected: "well".into() }];
    phase.min_effects = Some(3);
    let readers = EvaluatorInput {
        annotations_count: 2,
        avg_met: false,
        avg_summary: "2.5/3".into(),
        low_beats: vec![LowBeat { beat: 1, score: 1, reason: Some("slow".into()) }],
        present_tags: vec![],
    };
    let progress =
        phase.evaluate_progress(&test_snapshot(), &test_beats(), &readers, false, &vec!["characters 2/3".into()]);
    assert!(!progress.complete);
    assert_eq!(progress.words, 6);
    assert_eq!(progress.beats, 1);
    assert_eq!(progress.effects_count, 1);
    assert_eq!(progress.ledger.status, LayerStatus::Partial);
    assert!(progress.ledger.invariants_passing);
    assert!(!progress.ledger.exit_state_met);
    assert_eq!(progress.resolver.status, LayerStatus::Partial);
    assert_eq!(progress.resolver.effects, "1/3");
    assert_eq!(progress.executor.status, LayerStatus::Pass);
    assert_eq!(progress.executor.words, "6/1-20");
    assert_eq!(progress.executor.beats, "1/1");
    assert_eq!(progress.evaluator.status, LayerStatus::NeedsRevision);
    assert_eq!(progress.evaluator.required_tags_missing, vec!["tension".to_string()]);
    let expected: Vec<String> = vec![
        "L1 未通过：exit_state 尚未满足".into(),
        "L1 未通过：worldbuilding characters 2/3".into(),
        "L2 未通过：effects 1/3".into(),
        "L4 未通过：avg_score 2.5/3".into(),
        "L4 未通过：low_beats 1/0".into(),
        "L4 未通过：缺少 required_tags [\"tension\"]".into(),
    ];
    assert_eq!(progress.blockers, expected);
}

#[test]
fn evaluate_progress_lists_remaining_plan() {
    let mut phase = test_phase();
    phase.executor.writing_plan.push(BeatPlan {
        label: "turn".into(),
        target_words: None,
        effects: vec![],
        guidance: None,
    });
    let progress = phase.evaluate_progress(&test_snapshot(), &test_beats(), &no_readers(), true, &vec![]);
    assert_eq!(progress.executor.status, LayerStatus::InProgress);
    assert_eq!(progress.executor.beats, "1/2");
    assert_eq!(progress.executor.beats_remaining.len(), 1);
    assert_eq!(progress.executor.beats_remaining[0].label, "turn");
    assert!(progress.blockers.contains(&"L3 未通过：beats 1/2".to_string()));
}
