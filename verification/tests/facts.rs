use ledger::entity::{Character, Entity, Location, Relationship};
use ledger::fact::{Arg, FactSet, collect_facts};
use ledger::goal::{Goal, GoalEntity, GoalStatus};
use ledger::program::Program;
use ledger::rule::{RuleEntry, RuleSet, RuleSource};
use ledger::secret::Secret;
use ledger::snapshot::Snapshot;

fn person(id: &str, name: &str, desires: Vec<&str>, rels: Vec<Relationship>) -> Entity {
    Entity::Character(Character {
        id: id.into(),
        name: Some(name.into()),
        traits: vec![],
        beliefs: vec![],
        desires: desires.into_iter().map(|s| s.to_string()).collect(),
        intentions: vec![],
        location: Some("wasteland".into()),
        relationships: rels,
        inventory: vec![],
        goals: vec![],
        tags: vec![],
        description: None,
    })
}

fn wasteland() -> Entity {
    Entity::Location(Location {
        id: "wasteland".into(),
        name: None,
        properties: vec![],
        connections: vec!["oasis".into()],
        tags: vec![],
        description: None,
    })
}

fn ally() -> Relationship {
    Relationship { target: "nova".into(), role: "ally".into(), trust: 2, affinity: 1, respect: 0 }
}

#[test]
fn factset_dedup() {
    let mut fs = FactSet::new();
    fs.add("at", vec![Arg::Id("kian".into()), Arg::Id("wasteland".into())]);
    fs.add("at", vec![Arg::Id("kian".into()), Arg::Id("wasteland".into())]);
    assert_eq!(fs.len(), 1);
}

#[test]
fn factset_to_datalog_format() {
    let mut fs = FactSet::new();
    fs.add("trust", vec![Arg::Id("kian".into()), Arg::Id("nova".into()), Arg::Int(3)]);
    fs.add("role", vec![Arg::Id("kian".into()), Arg::Id("nova".into()), Arg::Str("师徒".into())]);
    let text = fs.to_datalog();
    assert!(text.contains("trust(kian, nova, 3)."));
    assert!(text.contains("role(kian, nova, \"师徒\")."));
}

#[test]
fn collect_facts_from_entities() {
    let mut kian = person("kian", "基安", vec![], vec![ally()]);
    if let Entity::Character(c) = &mut kian {
        c.traits = vec!["勇敢".into()];
    }
    let snapshot = Snapshot::from_parts("ch01", vec![kian, wasteland()], vec![], vec![]);
    let facts = collect_facts(&snapshot);
    let text = facts.to_datalog();
    assert!(text.contains("character(kian)."));
    assert!(text.contains("at(kian, wasteland)."));
    assert!(text.contains("trust(kian, nova, 2)."));
    assert!(text.contains("affinity(kian, nova, 1)."));
    assert!(text.contains("connected(wasteland, oasis)."));
    assert!(text.contains("connected(oasis, wasteland)."));
}

#[test]
fn program_to_datalog_contains_all_sections() {
    let snap = Snapshot::from_parts(
        "ch01",
        vec![person("kian", "基安", vec!["找水"], vec![ally()]), person("nova", "诺娃", vec!["找水"], vec![]), wasteland()],
        vec![],
        vec![],
    );
    let program = Program::from_snapshot(&snap, None);
    let text = program.to_datalog();
    assert!(text.contains("character(kian)."));
    assert!(text.contains("at(kian, wasteland)."));
    assert!(text.contains("trust(kian, nova, 2)."));
    assert!(text.contains("can_meet(?A, ?B)"));
    assert!(text.contains("betrayal_opportunity"));
    assert!(text.contains("@export can_meet :- csv{}."));
}

#[test]
fn factset_exact_text_and_repeats() {
    let mut fs = FactSet::new();
    assert!(fs.is_empty());
    fs.add("name", vec![Arg::Id("kian".into()), Arg::Str("say \"hi\"".into())]);
    fs.add("trust", vec![Arg::Id("kian".into()), Arg::Int(-2)]);
    fs.add("name", vec![Arg::Id("kian".into()), Arg::Str("say \"hi\"".into())]);
    fs.add("trust", vec![Arg::Id("kian".into()), Arg::Str("-2".into())]);
    assert_eq!(fs.len(), 3);
    assert_eq!(
        fs.to_datalog(),
        "% === Facts ===\nname(kian, \"say \\\"hi\\\"\").\ntrust(kian, -2).\ntrust(kian, \"-2\").\n"
    );
}

#[test]
fn collect_facts_goals_and_secrets() {
    let goal = Goal {
        id: "survive".into(),
        want: "活下去".into(),
        problem: Some("缺水".into()),
        solution: None,
        status: GoalStatus::Active,
        blocked_by: vec!["nova/hoard".into(), "malformed".into()],
        conflicts_with: vec![],
        side_effects: vec![],
        children: vec![Goal {
            id: "find water".into(),
            want: "找水".into(),
            problem: None,
            solution: Some("井".into()),
            status: GoalStatus::Blocked,
            blocked_by: vec![],
            conflicts_with: vec!["nova/hoard".into()],
            side_effects: vec![],
            children: vec![],
        }],
    };
    let ge = GoalEntity { entity_type: "character".into(), id: "kian".into(), name: None, goals: vec![goal] };
    let secret = Secret {
        id: "s1".into(),
        content: "井在北边".into(),
        known_by: vec!["nova".into()],
        revealed_to_reader: true,
        dramatic_function: None,
    };
    let snap = Snapshot::from_parts("ch01", vec![], vec![secret], vec![ge]);
    let text = collect_facts(&snap).to_datalog();
    assert_eq!(
        text,
        "% === Facts ===\n\
         want(kian, survive, \"活下去\").\n\
         goal_status(kian, survive, active).\n\
         goal_problem(kian, survive, \"缺水\").\n\
         blocks(nova, hoard, kian, survive).\n\
         want(kian, \"find water\", \"找水\").\n\
         goal_status(kian, \"find water\", blocked).\n\
         has_solution(kian, \"find water\").\n\
         child_of(\"find water\", survive).\n\
         conflicts(kian, \"find water\", nova, hoard).\n\
         secret(s1).\n\
         secret_known_by(s1, nova).\n\
         secret_revealed_to_reader(s1).\n"
    );
}

#[test]
fn program_appends_user_rules() {
    let mut user = RuleSet::new();
    user.add(RuleEntry {
        source: RuleSource::UserFile("mine.dl".into()),
        text: "ally(?A, ?B) :- role(?A, ?B, ally).".into(),
        exports: vec!["ally".into()],
    });
    let snap = Snapshot::from_parts("ch01", vec![wasteland()], vec![], vec![]);
    let text = Program::from_snapshot(&snap, Some(user)).to_datalog();
    assert!(text.starts_with("% === Facts ===\nentity(wasteland, location).\nlocation(wasteland).\n"));
    assert!(text.contains("% --- rules: mine.dl ---\nally(?A, ?B) :- role(?A, ?B, ally).\n"));
    assert!(text.contains("@export ally :- csv{}."));
}
