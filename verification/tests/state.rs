use ledger::constraint::{check_assertions, evaluate_assertion};
use ledger::content::{ContentStatus, ContentTree, check_slot_coverage, extract_context, extract_refs, strip_refs};
use ledger::entity::{Character, Entity, Location, Relationship};
use ledger::fact::Arg;
use ledger::graph::WorldGraph;
use ledger::op::Op;
use ledger::phase::{PhaseStatus, StateAssertion};
use ledger::phase_manager::{PhaseDeps, ProjectState};
use ledger::reasoning::ReasoningResult;
use ledger::rule::{RuleEntry, RuleSet, RuleSource};
use ledger::secret::Secret;
use ledger::snapshot::Snapshot;

fn ch(id: &str, name: Option<&str>, location: Option<&str>, traits: Vec<&str>, inventory: Vec<&str>, rels: Vec<Relationship>) -> Entity {
    Entity::Character(Character {
        id: id.into(),
        name: name.map(|s| s.to_string()),
        traits: traits.into_iter().map(|s| s.to_string()).collect(),
        beliefs: vec![],
        desires: vec![],
        intentions: vec![],
        location: location.map(|s| s.to_string()),
        relationships: rels,
        inventory: inventory.into_iter().map(|s| s.to_string()).collect(),
        goals: vec![],
        tags: vec![],
        description: None,
    })
}

fn loc(id: &str, name: &str, connections: Vec<&str>) -> Entity {
    Entity::Location(Location {
        id: id.into(),
        name: Some(name.into()),
        properties: vec![],
        connections: connections.into_iter().map(|s| s.to_string()).collect(),
        tags: vec![],
        description: None,
    })
}

fn rel(target: &str, role: &str, trust: i8, affinity: i8, respect: i8) -> Relationship {
    Relationship { target: target.into(), role: role.into(), trust, affinity, respect }
}

// ── Constraints ──────────────────────────────────────────────────

fn test_snapshot() -> Snapshot {
    Snapshot::from_parts(
        "test",
        vec![
            ch("kian", Some("基安"), Some("oasis_gate"), vec!["brave"], vec!["knife"], vec![rel("nova", "hostile", 0, 0, 0)]),
            ch("nova", Some("诺娃"), Some("oasis_gate"), vec![], vec![], vec![]),
        ],
        vec![Secret {
            id: "oasis_truth".into(),
            content: "test".into(),
            known_by: vec!["kian".into()],
            revealed_to_reader: false,
            dramatic_function: None,
        }],
        vec![],
    )
}

fn assertion(query: &str, expected: &str) -> StateAssertion {
    StateAssertion { query: query.into(), expected: expected.into() }
}

#[test]
fn entity_alive_pass() {
    let (ok, _) = check_assertions(&test_snapshot(), &vec![assertion("entity_alive(kian)", "true")]);
    assert!(ok);
}

#[test]
fn entity_alive_fail() {
    let (ok, failures) = check_assertions(&test_snapshot(), &vec![assertion("entity_alive(ghost)", "true")]);
    assert!(!ok);
    assert_eq!(failures.len(), 1);
}

#[test]
fn location_check() {
    let (ok, _) = check_assertions(&test_snapshot(), &vec![assertion("kian.location", "oasis_gate")]);
    assert!(ok);
}

#[test]
fn location_check_fail() {
    let (ok, _) = check_assertions(&test_snapshot(), &vec![assertion("kian.location", "wasteland")]);
    assert!(!ok);
}

#[test]
fn knows_check() {
    let (ok, _) = check_assertions(&test_snapshot(), &vec![assertion("knows(kian, oasis_truth)", "true")]);
    assert!(ok);
}

#[test]
fn knows_check_fail() {
    let (ok, _) = check_assertions(&test_snapshot(), &vec![assertion("knows(nova, oasis_truth)", "true")]);
    assert!(!ok);
}

#[test]
fn has_trait_check() {
    let (ok, _) = check_assertions(&test_snapshot(), &vec![assertion("kian.has_trait(brave)", "true")]);
    assert!(ok);
}

#[test]
fn has_item_check() {
    let (ok, _) = check_assertions(&test_snapshot(), &vec![assertion("kian.has_item(knife)", "true")]);
    assert!(ok);
}

#[test]
fn assertion_expected_false_and_unknown_query() {
    let snap = test_snapshot();
    assert!(evaluate_assertion(&snap, &assertion("entity_alive(ghost)", "false")));
    assert!(!evaluate_assertion(&snap, &assertion("weather(today)", "true")));
}

// ── Content tree ─────────────────────────────────────────────────

fn build_test_tree() -> ContentTree {
    let mut tree = ContentTree::new();
    let nodes: Vec<(&str, Option<&str>, u32)> = vec![
        ("root", None, 1),
        ("a", Some("root"), 1),
        ("b", Some("root"), 2),
        ("a1", Some("a"), 1),
        ("a2", Some("a"), 2),
        ("b1", Some("b"), 1),
    ];
    let mut orders: Vec<(String, u32)> = Vec::new();
    for (id, parent, order) in &nodes {
        orders.push((id.to_string(), *order));
        tree.register(id, *parent);
    }
    tree.sort_children(&orders);
    tree
}

fn status(tree: &ContentTree, id: &str) -> ContentStatus {
    tree.nodes.iter().find(|n| n.id == id).map(|n| n.entry.status).unwrap()
}

#[test]
fn tree_structure() {
    let tree = build_test_tree();
    assert_eq!(tree.root.as_deref(), Some("root"));
    assert_eq!(tree.children_of("root"), &["a", "b"]);
    assert_eq!(tree.children_of("a"), &["a1", "a2"]);
    assert_eq!(tree.children_of("b"), &["b1"]);
    assert!(tree.is_leaf("a1"));
    assert!(tree.is_leaf("b1"));
    assert!(tree.is_branch("root"));
    assert!(tree.is_branch("a"));
}

#[test]
fn dfs_order() {
    assert_eq!(build_test_tree().dfs_order(), vec!["root", "a", "a1", "a2", "b", "b1"]);
}

#[test]
fn replay_path() {
    let tree = build_test_tree();
    assert_eq!(tree.replay_path("a2"), vec!["root", "a", "a1", "a2"]);
    assert_eq!(tree.replay_path("b1"), vec!["root", "a", "a1", "a2", "b", "b1"]);
    assert_eq!(tree.replay_path("root"), vec!["root"]);
}

#[test]
fn ancestors() {
    let tree = build_test_tree();
    assert_eq!(tree.ancestors("a2"), vec!["root", "a", "a2"]);
    assert_eq!(tree.ancestors("b1"), vec!["root", "b", "b1"]);
    assert_eq!(tree.ancestors("root"), vec!["root"]);
}

#[test]
fn branch_children_unlocked_when_parent_active() {
    let tree = build_test_tree();
    assert_eq!(status(&tree, "root"), ContentStatus::Active);
    assert_eq!(status(&tree, "a"), ContentStatus::Active);
    assert_eq!(status(&tree, "b"), ContentStatus::Locked);
    assert_eq!(status(&tree, "a1"), ContentStatus::Active);
}

#[test]
fn commit_unlocks_next_sibling() {
    let mut tree = build_test_tree();
    tree.commit("a").unwrap();
    assert_eq!(status(&tree, "b"), ContentStatus::Active);
}

#[test]
fn sibling_order_matters() {
    let mut tree = build_test_tree();
    assert_eq!(status(&tree, "a1"), ContentStatus::Active);
    assert_eq!(status(&tree, "a2"), ContentStatus::Locked);
    tree.commit("a1").unwrap();
    assert_eq!(status(&tree, "a2"), ContentStatus::Active);
}

#[test]
fn cannot_commit_locked() {
    let mut tree = build_test_tree();
    assert!(tree.commit("b").is_err());
}

#[test]
fn can_activate_committed_for_expansion() {
    let mut tree = build_test_tree();
    tree.commit("root").unwrap();
    assert!(tree.activate("root").is_ok());
    assert_eq!(tree.active.as_deref(), Some("root"));
}

#[test]
fn preceding_subtrees() {
    let tree = build_test_tree();
    assert_eq!(tree.preceding_subtrees("b"), vec!["a", "a1", "a2"]);
    assert_eq!(tree.preceding_subtrees("a2"), vec!["a1"]);
    assert!(tree.preceding_subtrees("a").is_empty());
}

#[test]
fn all_children_committed() {
    let mut tree = build_test_tree();
    assert!(!tree.all_children_committed("root"));
    tree.commit("a").unwrap();
    tree.commit("b").unwrap();
    assert!(tree.all_children_committed("root"));
}

#[test]
fn leaves_dfs() {
    assert_eq!(build_test_tree().leaves_dfs(), vec!["a1", "a2", "b1"]);
}

#[test]
fn leaf_replay_path_skips_branches() {
    let tree = build_test_tree();
    assert_eq!(tree.leaf_replay_path("a2"), vec!["a1", "a2"]);
    assert_eq!(tree.leaf_replay_path("b1"), vec!["a1", "a2", "b1"]);
}

#[test]
fn leaf_replay_path_before() {
    let tree = build_test_tree();
    assert_eq!(tree.leaf_replay_path_before("a2"), vec!["a1"]);
    assert_eq!(tree.leaf_replay_path_before("b"), vec!["a1", "a2"]);
}

#[test]
fn subtree_leaves() {
    let tree = build_test_tree();
    assert_eq!(tree.subtree_leaves("a"), vec!["a1", "a2"]);
    assert_eq!(tree.subtree_leaves("root"), vec!["a1", "a2", "b1"]);
    assert_eq!(tree.subtree_leaves("b1"), vec!["b1"]);
}

#[test]
fn depth_and_nodes_at_depth() {
    let tree = build_test_tree();
    assert_eq!(tree.depth("root"), 0);
    assert_eq!(tree.depth("a2"), 2);
    assert_eq!(tree.nodes_at_depth(1), vec!["a", "b"]);
}

#[test]
fn slot_coverage_all_covered() {
    let parent = vec![
        Op::Move { entity: "kian".into(), location: "oasis".into() },
        Op::AddTrait { entity: "kian".into(), value: "brave".into() },
    ];
    let child_a = vec![Op::Move { entity: "kian".into(), location: "oasis".into() }];
    let child_b = vec![Op::AddTrait { entity: "kian".into(), value: "brave".into() }];
    let (_, uncovered) = check_slot_coverage(&parent, &vec![child_a, child_b]);
    assert!(uncovered.is_empty());
}

#[test]
fn slot_coverage_partial() {
    let parent = vec![
        Op::Move { entity: "kian".into(), location: "oasis".into() },
        Op::AddTrait { entity: "kian".into(), value: "brave".into() },
    ];
    let child_a = vec![Op::Move { entity: "kian".into(), location: "oasis".into() }];
    let (covered, uncovered) = check_slot_coverage(&parent, &vec![child_a]);
    assert_eq!(covered.len(), 1);
    assert_eq!(uncovered.len(), 1);
}

#[test]
fn slot_coverage_empty_parent() {
    let (_, uncovered) = check_slot_coverage(&vec![], &vec![vec![]]);
    assert!(uncovered.is_empty());
}

#[test]
fn incremental_spawn_unlocks_children() {
    let mut tree = ContentTree::new();
    let mut orders: Vec<(String, u32)> = vec![("root".to_string(), 1)];
    tree.register("root", None);
    tree.sort_children(&orders);
    assert!(tree.is_leaf("root"));
    assert_eq!(status(&tree, "root"), ContentStatus::Active);

    orders.push(("ch1".to_string(), 1));
    tree.register("ch1", Some("root"));
    tree.sort_children(&orders);
    tree.resolve_locks();
    assert!(tree.is_branch("root"));
    assert_eq!(status(&tree, "root"), ContentStatus::Active);
    assert_eq!(status(&tree, "ch1"), ContentStatus::Active);

    orders.push(("ch2".to_string(), 2));
    tree.register("ch2", Some("root"));
    tree.sort_children(&orders);
    tree.resolve_locks();
    assert_eq!(status(&tree, "root"), ContentStatus::Active);
    assert_eq!(status(&tree, "ch1"), ContentStatus::Active);
    assert_eq!(status(&tree, "ch2"), ContentStatus::Locked);
}

#[test]
fn extract_refs_basic() {
    let refs = extract_refs("[小晚](characters/lin)拖着行李箱走出[车站](locations/station)。");
    assert_eq!(refs.len(), 2);
    assert_eq!(refs[0].display, "小晚");
    assert_eq!(refs[0].card_path, "characters/lin");
    assert_eq!(refs[0].entity_id, "lin");
    assert_eq!(refs[1].display, "车站");
    assert_eq!(refs[1].entity_id, "station");
}

#[test]
fn extract_refs_no_slash_ignored() {
    assert!(extract_refs("[链接](https)不是card引用").is_empty());
}

#[test]
fn extract_refs_pronoun() {
    let refs = extract_refs("[她](characters/lin)微微一笑。");
    assert_eq!(refs.len(), 1);
    assert_eq!(refs[0].display, "她");
    assert_eq!(refs[0].entity_id, "lin");
}

#[test]
fn extract_refs_empty_text() {
    assert!(extract_refs("").is_empty());
}

#[test]
fn extract_context_middle() {
    let text = "第一行\n第二行\n第三行\n第四行\n第五行";
    let ctx = extract_context(text, 20, 1);
    assert!(ctx.contains("第二行"));
    assert!(ctx.contains("第三行"));
    assert!(ctx.contains("第四行"));
}

#[test]
fn strip_refs_basic() {
    assert_eq!(strip_refs("[小晚](characters/lin)拖着行李箱走出[车站](locations/station)。"), "小晚拖着行李箱走出车站。");
}

#[test]
fn strip_refs_preserves_non_card_links() {
    assert_eq!(strip_refs("参见[文档](https)和[小晚](characters/lin)。"), "参见[文档](https)和小晚。");
}

#[test]
fn strip_refs_empty() {
    assert_eq!(strip_refs(""), "");
}

#[test]
fn strip_refs_no_refs() {
    let text = "没有任何引用的普通文本。";
    assert_eq!(strip_refs(text), text);
}

// ── Facts ────────────────────────────────────────────────────────

#[test]
fn arg_auto_id() {
    assert_eq!(Arg::auto("kian"), Arg::Id("kian".into()));
    assert_eq!(Arg::auto("sector_4"), Arg::Id("sector_4".into()));
}

#[test]
fn arg_auto_str() {
    assert_eq!(Arg::auto("师徒"), Arg::Str("师徒".into()));
    assert_eq!(Arg::auto("hello world"), Arg::Str("hello world".into()));
}

#[test]
fn arg_datalog_text() {
    assert_eq!(Arg::Id("kian".into()).to_datalog(), "kian");
    assert_eq!(Arg::Str("a\"b".into()).to_datalog(), "\"a\\\"b\"");
    assert_eq!(Arg::Str("kian".into()).to_datalog(), "\"kian\"");
    assert_eq!(Arg::Int(-3).to_datalog(), "-3");
    assert_eq!(Arg::Int(i64::MIN).to_datalog(), "-9223372036854775808");
    assert_eq!(Arg::auto(""), Arg::Str(String::new()));
}

// ── World graph ──────────────────────────────────────────────────

fn make_world() -> Vec<Entity> {
    vec![
        ch("kian", Some("基安"), Some("wasteland"), vec![], vec![], vec![]),
        ch("nova", Some("诺娃"), Some("oasis"), vec![], vec![], vec![rel("kian", "enemy", -3, -3, 0)]),
        loc("wasteland", "废土", vec!["oasis"]),
        loc("oasis", "绿洲", vec![]),
    ]
}

#[test]
fn build_graph_counts() {
    let graph = WorldGraph::build(&make_world());
    assert_eq!(graph.node_count(), 4);
    assert!(graph.edge_count() > 0);
}

#[test]
fn subgraph_from_wasteland() {
    let graph = WorldGraph::build(&make_world());
    let sub = graph.subgraph(&["wasteland"]);
    assert!(sub.contains_node("wasteland"));
    assert!(sub.contains_node("kian"));
    assert!(sub.contains_node("oasis"));
}

#[test]
fn neighborhood_depth_0() {
    let graph = WorldGraph::build(&make_world());
    assert_eq!(graph.neighborhood(&["kian"], 0), vec!["kian"]);
}

#[test]
fn neighborhood_depth_1_follows_edges() {
    let graph = WorldGraph::build(&make_world());
    let n = graph.neighborhood(&["kian"], 1);
    assert!(n.contains(&"wasteland".to_string()));
    assert!(!n.contains(&"nova".to_string()));
    let m = graph.neighborhood(&["nova"], 1);
    assert!(m.contains(&"kian".to_string()));
    assert!(m.contains(&"oasis".to_string()));
    assert!(!graph.contains_node("ghost"));
}

// ── Reasoning results ────────────────────────────────────────────

fn row(xs: &[&str]) -> Vec<String> {
    xs.iter().map(|s| s.to_string()).collect()
}

#[test]
fn reasoning_result_contains() {
    let mut result = ReasoningResult::new();
    result.insert("can_meet".into(), vec![row(&["kian", "nova"])]);
    result.set_total_facts(1);
    assert!(result.contains("can_meet", &["kian", "nova"]));
    assert!(!result.contains("can_meet", &["nova", "kian"]));
    assert!(!result.contains("enemy", &["kian", "nova"]));
}

#[test]
fn pairs_accessor() {
    let mut result = ReasoningResult::new();
    result.insert("can_meet".into(), vec![row(&["kian", "nova"]), row(&["nova", "kian"])]);
    let pairs = result.pairs("can_meet");
    assert_eq!(pairs.len(), 2);
    assert_eq!(pairs[0], ("kian", "nova"));
}

#[test]
fn triples_accessor() {
    let mut result = ReasoningResult::new();
    result.insert("betrayal_opportunity".into(), vec![row(&["a", "b", "secret1"])]);
    let triples = result.triples("betrayal_opportunity");
    assert_eq!(triples.len(), 1);
    assert_eq!(triples[0], ("a", "b", "secret1"));
}

#[test]
fn singles_accessor() {
    let mut result = ReasoningResult::new();
    result.insert("orphaned_secret".into(), vec![row(&["secret1"])]);
    assert_eq!(result.singles("orphaned_secret"), vec!["secret1"]);
}

#[test]
fn missing_predicate_returns_empty() {
    let result = ReasoningResult::new();
    assert!(result.pairs("nonexistent").is_empty());
    assert!(result.triples("nonexistent").is_empty());
    assert!(result.singles("nonexistent").is_empty());
}

#[test]
fn insert_replaces_rows_of_same_predicate() {
    let mut result = ReasoningResult::new();
    result.insert("p".into(), vec![row(&["a"])]);
    result.insert("q".into(), vec![row(&["b"])]);
    result.insert("p".into(), vec![row(&["c"])]);
    assert_eq!(result.singles("p"), vec!["c"]);
    assert_eq!(result.predicate_count(), 2);
    assert!(result.has("q"));
}

// ── Rules ────────────────────────────────────────────────────────

#[test]
fn builtins_have_exports() {
    let exports = RuleSet::builtins().exports();
    assert!(exports.contains(&"can_meet".to_string()));
    assert!(exports.contains(&"betrayal_opportunity".to_string()));
    assert!(exports.contains(&"dramatic_irony".to_string()));
    assert!(exports.contains(&"suspense".to_string()));
}

#[test]
fn exports_are_sorted_and_deduped() {
    let exports = RuleSet::builtins().exports();
    for w in exports.windows(2) {
        assert!(w[0] < w[1], "exports not sorted: {} >= {}", w[0], w[1]);
    }
}

#[test]
fn to_datalog_includes_all_rules() {
    let text = RuleSet::builtins().to_datalog();
    assert!(text.contains("can_meet"));
    assert!(text.contains("suspense"));
    assert!(text.contains("dramatic_irony"));
    assert!(text.contains("betrayal_opportunity"));
}

#[test]
fn export_declarations_format() {
    let decls = RuleSet::builtins().export_declarations();
    assert!(decls.contains("@export can_meet :- csv{}."));
    assert!(decls.contains("@export suspense :- csv{}."));
}

#[test]
fn extend_merges_rulesets() {
    let mut a = RuleSet::new();
    a.add(RuleEntry {
        source: RuleSource::Builtin("test"),
        text: "pred_a(?X) :- character(?X).".into(),
        exports: vec!["pred_a".into()],
    });
    let mut b = RuleSet::new();
    b.add(RuleEntry {
        source: RuleSource::Builtin("test2"),
        text: "pred_b(?X) :- location(?X).".into(),
        exports: vec!["pred_b".into()],
    });
    a.extend(b);
    let exports = a.exports();
    assert!(exports.contains(&"pred_a".to_string()));
    assert!(exports.contains(&"pred_b".to_string()));
}

#[test]
fn empty_ruleset_has_no_exports() {
    assert!(RuleSet::new().exports().is_empty());
}

// ── Phases ───────────────────────────────────────────────────────

fn phase_status(state: &ProjectState, id: &str) -> PhaseStatus {
    state.phases.iter().find(|p| p.id == id).map(|p| p.entry.status).unwrap()
}

fn deps(id: &str, on: Vec<&str>) -> PhaseDeps {
    PhaseDeps { id: id.into(), depends_on: on.into_iter().map(|s| s.to_string()).collect() }
}

#[test]
fn register_no_deps_is_ready() {
    let mut state = ProjectState::new();
    state.register_phase("setup", &vec![]);
    assert_eq!(phase_status(&state, "setup"), PhaseStatus::Ready);
}

#[test]
fn register_with_deps_is_locked() {
    let mut state = ProjectState::new();
    state.register_phase("setup", &vec![]);
    state.register_phase("act2", &vec!["setup".to_string()]);
    assert_eq!(phase_status(&state, "act2"), PhaseStatus::Locked);
}

#[test]
fn checkout_ready_becomes_active() {
    let mut state = ProjectState::new();
    state.register_phase("setup", &vec![]);
    state.checkout("setup").unwrap();
    assert_eq!(phase_status(&state, "setup"), PhaseStatus::Active);
    assert_eq!(state.current_phase.as_deref(), Some("setup"));
}

#[test]
fn checkout_locked_fails() {
    let mut state = ProjectState::new();
    state.register_phase("setup", &vec![]);
    state.register_phase("act2", &vec!["setup".to_string()]);
    assert!(state.checkout("act2").is_err());
}

#[test]
fn full_lifecycle() {
    let mut state = ProjectState::new();
    state.register_phase("setup", &vec![]);
    state.register_phase("act2", &vec!["setup".to_string()]);
    state.checkout("setup").unwrap();
    state.submit().unwrap();
    assert_eq!(phase_status(&state, "setup"), PhaseStatus::Reviewing);
    state.approve().unwrap();
    assert_eq!(phase_status(&state, "setup"), PhaseStatus::Approved);
    assert!(state.current_phase.is_none());
    state.resolve_dependencies_with_phases(&vec![deps("setup", vec![]), deps("act2", vec!["setup"])]);
    assert_eq!(phase_status(&state, "act2"), PhaseStatus::Ready);
    state.checkout("act2").unwrap();
    assert_eq!(phase_status(&state, "act2"), PhaseStatus::Active);
}

#[test]
fn reject_returns_to_active() {
    let mut state = ProjectState::new();
    state.register_phase("setup", &vec![]);
    state.checkout("setup").unwrap();
    state.submit().unwrap();
    state.reject("太短了").unwrap();
    assert_eq!(phase_status(&state, "setup"), PhaseStatus::Active);
    let rec = state.phases.iter().find(|p| p.id == "setup").unwrap();
    assert_eq!(rec.entry.rejected_reason.as_deref(), Some("太短了"));
}

#[test]
fn cannot_checkout_two_phases() {
    let mut state = ProjectState::new();
    state.register_phase("a", &vec![]);
    state.register_phase("b", &vec![]);
    state.checkout("a").unwrap();
    assert!(state.checkout("b").is_err());
}

#[test]
fn submit_without_active_phase_fails() {
    let mut state = ProjectState::new();
    assert!(state.submit().is_err());
    assert!(state.approve().is_err());
}

// ── Snapshots ────────────────────────────────────────────────────

#[test]
fn from_parts_creates_snapshot() {
    let snap = Snapshot::from_parts("ch01", make_world(), vec![], vec![]);
    assert_eq!(snap.position, "ch01");
    assert_eq!(snap.characters().len(), 2);
    assert_eq!(snap.locations().len(), 2);
    assert!(snap.entity("kian").is_some());
    assert!(snap.entity("ghost").is_none());
}

#[test]
fn user_rule_declares_exports() {
    let entry = ledger::rule::user_rule(
        "multi.dl".into(),
        "% @export pred_a\n  %@export pred_b  \npred_a(?X) :- character(?X).\n% export nope\n".into(),
    );
    assert_eq!(entry.exports, vec!["pred_a", "pred_b"]);
    let mut rs = RuleSet::new();
    rs.add(entry);
    assert_eq!(rs.exports(), vec!["pred_a", "pred_b"]);
    assert!(rs.to_datalog().contains("pred_a(?X) :- character(?X)."));
    assert!(ledger::rule::user_rule("x.dl".into(), "not a rule".into()).exports.is_empty());
}

#[test]
fn approve_unlocks_dependents() {
    let mut state = ProjectState::new();
    state.register_phase("setup", &vec![]);
    state.register_phase("act2", &vec!["setup".to_string()]);
    assert_eq!(phase_status(&state, "act2"), PhaseStatus::Locked);
    state.checkout("setup").unwrap();
    state.submit().unwrap();
    assert_eq!(state.approve().unwrap(), "setup");
    assert_eq!(phase_status(&state, "setup"), PhaseStatus::Approved);
    assert!(state.current_phase.is_none());
    assert_eq!(phase_status(&state, "act2"), PhaseStatus::Ready);
}

#[test]
fn commit_unlocks_through_nodes_unlocked_on_the_way() {
    let mut tree = ContentTree::new();
    tree.register("root", None);
    tree.register("a", Some("root"));
    tree.register("b", Some("root"));
    tree.register("a0", Some("b"));
    assert_eq!(status(&tree, "b"), ContentStatus::Locked);
    assert_eq!(status(&tree, "a0"), ContentStatus::Locked);
    tree.commit("a").unwrap();
    assert_eq!(status(&tree, "b"), ContentStatus::Active);
    assert_eq!(status(&tree, "a0"), ContentStatus::Active);
}

#[test]
fn empty_programs_and_iri_values() {
    assert!(ledger::reasoning::is_empty_program(""));
    assert!(ledger::reasoning::is_empty_program("% only a comment\n\n   \r\n  % another\n"));
    assert!(!ledger::reasoning::is_empty_program("% rules\ncan_meet(?A, ?B) :- at(?A, ?L), at(?B, ?L).\n"));
    assert_eq!(ledger::reasoning::strip_iri_brackets("<kian>"), "kian");
    assert_eq!(ledger::reasoning::strip_iri_brackets("kian"), "kian");
    assert_eq!(ledger::reasoning::strip_iri_brackets("<>"), "");
    assert_eq!(ledger::reasoning::strip_iri_brackets("<"), "<");
}
