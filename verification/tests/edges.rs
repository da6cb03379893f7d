use ledger::edge::MemoryEdge;
use ledger::entity::{Character, Entity, Relationship};
use ledger::memory::{Perception, PerceptionMode};
use ledger::memory_fact::collect_memory_facts;
use ledger::op::Op;
use ledger::perceive::{auto_perceive, perceive_all, propagate_told};
use ledger::snapshot::Snapshot;

fn make_snapshot(characters: Vec<(&str, Option<&str>)>) -> Snapshot {
    Snapshot {
        position: "test".into(),
        entities: characters
            .into_iter()
            .map(|(id, loc)| {
                Entity::Character(Character {
                    id: id.into(),
                    name: None,
                    traits: vec![],
                    beliefs: vec![],
                    desires: vec![],
                    intentions: vec![],
                    location: loc.map(|s| s.into()),
                    relationships: vec![],
                    inventory: vec![],
                    goals: vec![],
                    tags: vec![],
                    description: None,
                })
            })
            .collect(),
        secrets: vec![],
        goal_entities: vec![],
    }
}

fn trusts(snapshot: &mut Snapshot, who: usize, target: &str, trust: i8) {
    if let Entity::Character(ref mut c) = snapshot.entities[who] {
        c.relationships.push(Relationship {
            target: target.into(),
            role: "friend".into(),
            trust,
            affinity: 1,
            respect: 0,
        });
    }
}

#[test]
fn test_edge_from_ops() {
    let ops = vec![
        Op::Move { entity: "zhang_san".into(), location: "secret_room".into() },
        Op::Reveal { secret: "betrayal".into(), to: "zhang_san".into() },
    ];
    let edge = MemoryEdge::from_ops("prologue", 1, &ops);
    assert_eq!(edge.participants, vec!["zhang_san"]);
    assert_eq!(edge.locations, vec!["secret_room"]);
    assert_eq!(edge.secrets, vec!["betrayal"]);
    assert!(edge.description.contains("移动"));
    assert!(edge.description.contains("秘密"));
}

#[test]
fn edge_exact_fields() {
    let ops = vec![
        Op::AddRel { entity: "a".into(), target: "b".into(), rel: "师徒".into() },
        Op::AddItem { entity: "b".into(), item: "剑".into() },
        Op::RevealToReader { secret: "s".into() },
        Op::FailGoal { owner: "a".into(), goal_id: "g".into() },
    ];
    let edge = MemoryEdge::from_ops("ch1", 7, &ops);
    assert_eq!(edge.id, "ch1:7");
    assert_eq!(edge.participants, vec!["a", "b"]);
    assert_eq!(edge.objects, vec!["剑"]);
    assert_eq!(edge.secrets, vec!["s"]);
    assert_eq!(edge.description, "a与b建立关系「师徒」；b获得剑；读者得知秘密「s」；a的目标「g」失败");
    assert_eq!(edge.all_nodes(), vec!["a", "b", "s", "剑"]);
    assert_eq!(edge.cardinality(), 4);
    assert_eq!(edge.rehearsal_count, 0);
    assert_eq!(edge.source_ops.len(), 4);
}

#[test]
fn test_participant_perception() {
    let snapshot = make_snapshot(vec![("alice", Some("room")), ("bob", Some("elsewhere"))]);
    let ops = vec![Op::AddTrait { entity: "alice".into(), value: "brave".into() }];
    let edge = MemoryEdge::from_ops("test", 1, &ops);
    let perceptions = auto_perceive(&edge, &snapshot);
    assert_eq!(perceptions.len(), 1);
    assert_eq!(perceptions[0].character, "alice");
    assert_eq!(perceptions[0].mode, PerceptionMode::Witnessed);
}

#[test]
fn test_colocation_perception() {
    let snapshot = make_snapshot(vec![
        ("alice", Some("secret_room")),
        ("bob", Some("secret_room")),
        ("charlie", Some("elsewhere")),
    ]);
    let ops = vec![Op::Move { entity: "alice".into(), location: "secret_room".into() }];
    let edge = MemoryEdge::from_ops("test", 1, &ops);
    let perceptions = auto_perceive(&edge, &snapshot);
    let chars: Vec<&str> = perceptions.iter().map(|p| p.character.as_str()).collect();
    assert!(chars.contains(&"alice"));
    assert!(chars.contains(&"bob"));
    assert!(!chars.contains(&"charlie"));
}

#[test]
fn test_told_propagation() {
    let mut snapshot = make_snapshot(vec![("alice", Some("room")), ("bob", Some("elsewhere"))]);
    trusts(&mut snapshot, 0, "bob", 2);
    let ops = vec![Op::AddTrait { entity: "alice".into(), value: "test".into() }];
    let edge = MemoryEdge::from_ops("test", 1, &ops);
    let direct = auto_perceive(&edge, &snapshot);
    assert_eq!(direct.len(), 1);
    let told = propagate_told(&edge, &direct, &snapshot, 2);
    assert_eq!(told.len(), 1);
    assert_eq!(told[0].character, "bob");
    assert_eq!(told[0].mode, PerceptionMode::Told);
}

#[test]
fn reveal_recipient_and_rounds() {
    let mut snapshot = make_snapshot(vec![("alice", None), ("bob", None), ("carol", None)]);
    trusts(&mut snapshot, 1, "carol", 1);
    trusts(&mut snapshot, 0, "carol", 0);
    let ops = vec![Op::Reveal { secret: "s".into(), to: "bob".into() }];
    let edge = MemoryEdge::from_ops("n", 2, &ops);
    let direct = auto_perceive(&edge, &snapshot);
    let names: Vec<&str> = direct.iter().map(|p| p.character.as_str()).collect();
    assert_eq!(names, vec!["bob"]);
    let all = perceive_all(&vec![edge], &snapshot, 1, 3);
    let got: Vec<(String, PerceptionMode)> = all.iter().map(|p| (p.character.clone(), p.mode)).collect();
    assert_eq!(got, vec![("bob".to_string(), PerceptionMode::Witnessed), ("carol".to_string(), PerceptionMode::Told)]);
    assert!(all.iter().all(|p| p.edge_id == "n:2"));
}

#[test]
fn test_collect_memory_facts() {
    let ops = vec![
        Op::Move { entity: "alice".into(), location: "room".into() },
        Op::Reveal { secret: "betrayal".into(), to: "alice".into() },
    ];
    let edge = MemoryEdge::from_ops("prologue", 1, &ops);
    let perceptions =
        vec![Perception { character: "alice".into(), edge_id: edge.id.clone(), mode: PerceptionMode::Witnessed }];
    let facts = collect_memory_facts(&vec![edge], &vec![(50, 10)], &perceptions);
    let datalog = facts.to_datalog();
    assert!(datalog.contains("memory("));
    assert!(datalog.contains("mem_participant("));
    assert!(datalog.contains("mem_location("));
    assert!(datalog.contains("mem_secret("));
    assert!(datalog.contains("perceives(alice,"));
    assert_eq!(
        datalog,
        "% === Facts ===\nmemory(prologue:1, prologue, 1).\nmem_participant(prologue:1, alice).\n\
         mem_location(prologue:1, room).\nmem_secret(prologue:1, betrayal).\nmem_salience(prologue:1, 50).\n\
         mem_valence(prologue:1, 10).\nperceives(alice, prologue:1, witnessed).\n"
    );
}

#[test]
fn involvement_counts_edges_most_involved_first() {
    let e1 = MemoryEdge::from_ops("ch01", 1, &vec![Op::Move { entity: "nova".into(), location: "gate".into() }]);
    let e2 = MemoryEdge::from_ops("ch01", 2, &vec![Op::AddTrait { entity: "kian".into(), value: "brave".into() }]);
    let e3 = MemoryEdge::from_ops("ch02", 3, &vec![Op::AddRel { entity: "kian".into(), target: "nova".into(), rel: "ally".into() }]);
    let inv = ledger::evaluator::character_involvement(&vec![e1, e2, e3]);
    assert_eq!(inv, vec![("nova".to_string(), 2), ("kian".to_string(), 2)]);
}

#[test]
fn coverage_counts_distinct_edges() {
    let e1 = MemoryEdge::from_ops("ch01", 1, &vec![Op::AddRel { entity: "kian".into(), target: "nova".into(), rel: "ally".into() }]);
    let e2 = MemoryEdge::from_ops("ch01", 2, &vec![Op::Move { entity: "kian".into(), location: "gate".into() }]);
    let p = |c: &str, e: &MemoryEdge| Perception { character: c.into(), edge_id: e.id.clone(), mode: PerceptionMode::Witnessed };
    let perceptions = vec![p("kian", &e1), p("kian", &e1), p("nova", &e2)];
    let cov = ledger::evaluator::knowledge_coverage(&vec![e1, e2], &perceptions);
    assert_eq!(cov, vec![("kian".to_string(), 2, 1), ("nova".to_string(), 1, 1)]);
}
