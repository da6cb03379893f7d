use ledger::content::ContentTree;
use ledger::entity::{Character, Entity};
use ledger::error::LedgerError;
use ledger::node::{Content, LocalCards, effective_effects, effective_main_role, effective_style};
use ledger::op::Op;
use ledger::secret::Secret;
use ledger::snapshot::Snapshot;

fn content(id: &str, parent: Option<&str>, effects: Vec<Op>, role: Option<&str>, style: Vec<&str>, over: bool) -> Content {
    Content {
        id: id.into(),
        parent: parent.map(|p| p.to_string()),
        order: 1,
        title: None,
        synopsis: None,
        text: String::new(),
        effects,
        word_count: 0,
        main_role: role.map(|r| r.to_string()),
        style: style.into_iter().map(|s| s.to_string()).collect(),
        style_override: over,
        created_by: "human".into(),
        created_at: String::new(),
    }
}

fn person(id: &str, loc: &str) -> Entity {
    Entity::Character(Character {
        id: id.into(),
        name: None,
        traits: vec![],
        beliefs: vec![],
        desires: vec![],
        intentions: vec![],
        location: Some(loc.into()),
        relationships: vec![],
        inventory: vec![],
        goals: vec![],
        tags: vec![],
        description: None,
    })
}

fn mv(who: &str, to: &str) -> Op {
    Op::Move { entity: who.into(), location: to.into() }
}

fn tree() -> ContentTree {
    let mut t = ContentTree::new();
    t.register("root", None);
    t.register("a", Some("root"));
    t.register("b", Some("root"));
    t
}

fn contents() -> Vec<Content> {
    vec![
        content("root", None, vec![mv("kian", "gate"), mv("nova", "well")], Some("kian"), vec!["冷峻"], false),
        content("a", Some("root"), vec![mv("kian", "gate")], None, vec!["急促"], false),
        content("b", Some("root"), vec![mv("kian", "oasis")], Some("nova"), vec!["温和"], true),
    ]
}

#[test]
fn content_is_root() {
    let cs = contents();
    assert!(cs[0].is_root());
    assert!(!cs[1].is_root());
}

#[test]
fn style_accumulates_unless_overridden() {
    let t = tree();
    let cs = contents();
    assert_eq!(effective_style("a", &t, &cs), vec!["冷峻".to_string(), "急促".to_string()]);
    assert_eq!(effective_style("b", &t, &cs), vec!["温和".to_string()]);
}

#[test]
fn main_role_inherited_from_nearest() {
    let t = tree();
    let cs = contents();
    assert_eq!(effective_main_role("a", &t, &cs), Some("kian".to_string()));
    assert_eq!(effective_main_role("b", &t, &cs), Some("nova".to_string()));
    assert_eq!(effective_main_role("missing", &t, &vec![]), None);
}

#[test]
fn branch_applies_only_unclaimed_effects() {
    let t = tree();
    let cs = contents();
    assert_eq!(effective_effects("root", &t, &cs), vec![mv("nova", "well")]);
    assert_eq!(effective_effects("a", &t, &cs), vec![mv("kian", "gate")]);
    assert!(effective_effects("zzz", &t, &cs).is_empty());
}

#[test]
fn at_and_before_content_replay() {
    let t = tree();
    let cs = contents();
    let genesis = || vec![person("kian", "desert"), person("nova", "desert")];
    let locals = vec![LocalCards {
        node: "b".into(),
        entities: vec![person("ghost", "ruin")],
        secrets: vec![Secret {
            id: "s1".into(),
            content: "秘密".into(),
            known_by: vec![],
            revealed_to_reader: false,
            dramatic_function: None,
        }],
    }];
    let before = Snapshot::before_content("b", &t, &cs, genesis(), vec![], &locals, &vec![]).unwrap();
    let loc = |s: &Snapshot, id: &str| match s.entity(id) {
        Some(Entity::Character(c)) => c.location.clone(),
        _ => None,
    };
    assert_eq!(loc(&before, "kian"), Some("gate".to_string()));
    assert_eq!(loc(&before, "nova"), Some("well".to_string()));
    assert!(before.entity("ghost").is_none());
    let after = Snapshot::at_content("b", &t, &cs, genesis(), vec![], &locals, &vec![]).unwrap();
    assert_eq!(loc(&after, "kian"), Some("oasis".to_string()));
    assert_eq!(loc(&after, "ghost"), Some("ruin".to_string()));
    assert!(after.secret("s1").is_some());
    assert_eq!(after.position, "b");
}

#[test]
fn replay_unknown_node_is_not_found() {
    let t = tree();
    let r = Snapshot::at_content("nope", &t, &contents(), vec![], vec![], &vec![], &vec![]);
    match r {
        Err(LedgerError::NotFound(m)) => assert_eq!(m, "Content 'nope' 不在内容树中"),
        _ => panic!("expected NotFound"),
    }
}
