use ledger::extractor::{CooccurrenceMatrix, Roster, is_likely_name, paragraph_names};
use ledger::loader::{detect_chapter_heading, parse_novel};
use ledger::memory::{ChunkConfig, EmbedError};

#[test]
fn test_chapter_detection() {
    assert!(detect_chapter_heading("第一章 风起云涌").is_some());
    assert!(detect_chapter_heading("第三回 鸿门宴").is_some());
    assert!(detect_chapter_heading("Chapter 1 Introduction").is_some());
    assert!(detect_chapter_heading("这是普通文本").is_none());
    assert!(detect_chapter_heading("").is_none());
}

#[test]
fn chapter_heading_forms() {
    assert_eq!(detect_chapter_heading("  CHAPTER 2 Rise ").as_deref(), Some("CHAPTER 2 Rise"));
    assert_eq!(detect_chapter_heading("卷二").as_deref(), Some("卷二"));
    assert!(detect_chapter_heading("第一次见面").is_none());
    assert!(detect_chapter_heading("chapters of life").is_none());
    let long = format!("第一章{}", "长".repeat(40));
    assert!(detect_chapter_heading(&long).is_none());
}

#[test]
fn test_parse_novel() {
    let text = "第一章 开端\n\n这是第一章的内容。\n\n角色出场了。\n\n第二章 发展\n\n故事继续发展。\n\n高潮即将到来。\n";
    let novel = parse_novel(text, "测试小说");
    assert_eq!(novel.chapter_count(), 2);
    assert_eq!(novel.chapters[0].title, "第一章 开端");
    assert_eq!(novel.chapters[1].title, "第二章 发展");
    assert!(novel.chapters[0].paragraphs.len() >= 2);
}

#[test]
fn test_no_chapters() {
    let text = "这是一段没有章节标记的文本。\n\n另一段话。";
    let novel = parse_novel(text, "无章节");
    assert_eq!(novel.chapter_count(), 1);
    assert_eq!(novel.chapters[0].title, "全文");
}

#[test]
fn paragraphs_join_and_split() {
    let text = "第一章 起\n甲行\n乙行\n\u{3000}\u{3000}丙行\r\n\n丁行\n";
    let novel = parse_novel(text, "t");
    assert_eq!(novel.chapters[0].paragraphs, vec!["甲行\n乙行", "丙行", "丁行"]);
    assert_eq!(novel.chapters[0].char_count, 9);
    assert_eq!(novel.total_chars, 9);
    let ps = novel.paragraphs();
    assert_eq!(ps.len(), 3);
    assert_eq!(ps[2].chapter_index, 0);
    assert_eq!(ps[2].paragraph_index, 2);
    assert_eq!(ps[2].text, "丁行");
}

#[test]
fn empty_text_is_one_empty_chapter() {
    let novel = parse_novel("", "空");
    assert_eq!(novel.chapter_count(), 1);
    assert!(novel.chapters[0].paragraphs.is_empty());
    assert_eq!(novel.total_chars, 0);
}

#[test]
fn test_dialogue_discovery() {
    let text = "第一章 测试\n\n叶凡说道：\u{201C}你好。\u{201D}\n\n叶凡笑道：\u{201C}不错。\u{201D}\n\n庞博问道：\u{201C}怎么了？\u{201D}\n\n叶凡说：\u{201C}走吧。\u{201D}\n";
    let novel = parse_novel(text, "测试");
    let candidates = Roster::discover_from_dialogue(&novel, 1);
    let names: Vec<&str> = candidates.iter().map(|(n, _)| n.as_str()).collect();
    assert!(names.contains(&"叶凡"), "should find 叶凡, got: {:?}", names);
    assert!(names.contains(&"庞博"), "should find 庞博, got: {:?}", names);
    let ye_fan = candidates.iter().find(|(n, _)| n == "叶凡").map(|(_, c)| *c).unwrap_or(0);
    let pang_bo = candidates.iter().find(|(n, _)| n == "庞博").map(|(_, c)| *c).unwrap_or(0);
    assert!(ye_fan > pang_bo);
}

#[test]
fn dialogue_discovery_min_mentions_and_order() {
    let text = "叶凡说道：好。\n\n叶凡说道：走。\n\n庞博说道：慢。";
    let novel = parse_novel(text, "t");
    let all = Roster::discover_from_dialogue(&novel, 1);
    assert_eq!(all[0].0, "叶凡");
    assert_eq!(all, vec![("叶凡".to_string(), 2), ("庞博".to_string(), 1)]);
    let frequent = Roster::discover_from_dialogue(&novel, 2);
    assert!(frequent.iter().all(|(_, c)| *c >= 2));
    assert!(frequent.iter().any(|(n, _)| n == "叶凡"));
    assert!(!frequent.iter().any(|(n, _)| n == "庞博"));
}

#[test]
fn likely_names() {
    assert!(is_likely_name("叶凡"));
    assert!(!is_likely_name("众人"));
    assert!(!is_likely_name("不是"));
    assert!(!is_likely_name("冷冷地"));
    assert!(!is_likely_name("ab"));
}

#[test]
fn paragraph_names_skip_adverb_particle() {
    let names = paragraph_names("萧炎冷冷地说");
    assert!(!names.contains(&"冷冷".to_string()));
    assert!(paragraph_names("萧炎说").contains(&"萧炎".to_string()));
}

#[test]
fn roster_assigns_names() {
    let mut r = Roster::new();
    r.add_character("jia_baoyu", &["宝玉", "贾宝玉"]);
    r.add_character("lin", &["宝玉"]);
    r.add_location("garden", &["大观园"]);
    assert_eq!(r.characters.len(), 2);
    assert_eq!(r.characters[0], ("宝玉".to_string(), "lin".to_string()));
    assert_eq!(r.locations, vec![("大观园".to_string(), "garden".to_string())]);
}

#[test]
fn top_pairs_and_characters() {
    let m = CooccurrenceMatrix {
        pairs: vec![
            (("a".into(), "b".into()), 2),
            (("a".into(), "c".into()), 5),
            (("b".into(), "c".into()), 2),
        ],
        counts: vec![("a".into(), 3), ("b".into(), 7), ("c".into(), 3)],
    };
    let top = m.top_pairs(2);
    assert_eq!(top.len(), 2);
    assert_eq!(top[0], (("a".to_string(), "c".to_string()), 5));
    assert_eq!(top[1], (("a".to_string(), "b".to_string()), 2));
    let chars = m.top_characters(10);
    assert_eq!(chars, vec![("b".to_string(), 7), ("a".to_string(), 3), ("c".to_string(), 3)]);
}

#[test]
fn chunk_config_default_and_embed_error_text() {
    let c = ChunkConfig::default();
    assert_eq!(c.window_size, 384);
    assert_eq!(c.stride, 192);
    assert_eq!(EmbedError::Io("disk".into()).message(), "io error: disk");
    assert_eq!(EmbedError::Init("x".into()).message(), "embedding model init failed: x");
}

fn raw(chapter: usize, para: usize, chars: &[&str], locs: &[&str], text: &str, seq: u32) -> ledger::events::RawEvent {
    ledger::events::RawEvent {
        chapter_index: chapter,
        paragraph_index: para,
        characters: chars.iter().map(|s| s.to_string()).collect(),
        locations: locs.iter().map(|s| s.to_string()).collect(),
        text: text.into(),
        seq,
    }
}

#[test]
fn test_find_entities() {
    let dict = vec![
        ("宝玉".to_string(), "jia_baoyu".to_string()),
        ("贾宝玉".to_string(), "jia_baoyu".to_string()),
        ("黛玉".to_string(), "lin_daiyu".to_string()),
    ];
    let found = ledger::events::find_entities("宝玉和黛玉在园中相遇", &dict);
    assert!(found.contains(&"jia_baoyu".to_string()));
    assert!(found.contains(&"lin_daiyu".to_string()));
    assert_eq!(found, vec!["jia_baoyu".to_string(), "lin_daiyu".to_string()]);
}

#[test]
fn test_cooccurrence() {
    let events = vec![raw(0, 0, &["a", "b"], &[], "test", 0), raw(0, 1, &["a", "b", "c"], &[], "test", 1)];
    let matrix = ledger::events::build_cooccurrence(&events);
    let ab = matrix.pairs.iter().find(|(k, _)| k == &("a".to_string(), "b".to_string())).map(|(_, v)| *v);
    assert_eq!(ab, Some(2));
    assert_eq!(
        matrix.counts,
        vec![("a".to_string(), 2), ("b".to_string(), 2), ("c".to_string(), 1)]
    );
    assert_eq!(
        matrix.pairs,
        vec![
            (("a".to_string(), "b".to_string()), 2),
            (("a".to_string(), "c".to_string()), 1),
            (("b".to_string(), "c".to_string()), 1),
        ]
    );
}

#[test]
fn extract_events_from_novel() {
    let novel = parse_novel("第一章 开始\n\n宝玉来了。\n\n风起。\n\n黛玉在园中。\n", "测试");
    let mut roster = Roster::new();
    roster.add_character("jia_baoyu", &["宝玉"]);
    roster.add_character("lin_daiyu", &["黛玉"]);
    roster.add_location("garden", &["园"]);
    let events = ledger::events::extract_events(&novel, &roster);
    assert_eq!(events.len(), 2);
    assert_eq!(events[0].characters, vec!["jia_baoyu".to_string()]);
    assert_eq!(events[0].seq, 0);
    assert_eq!(events[1].characters, vec!["lin_daiyu".to_string()]);
    assert_eq!(events[1].locations, vec!["garden".to_string()]);
    assert_eq!(events[1].paragraph_index, 2);
    assert_eq!(events[1].seq, 1);
}

#[test]
fn test_build_memory() {
    let events = vec![
        raw(0, 0, &["alice", "bob"], &["room"], "Alice and Bob met in the room.", 0),
        raw(0, 1, &["bob", "charlie"], &[], "Bob confronted Charlie.", 1),
    ];
    let built = ledger::builder::build_memory(&events);
    assert_eq!(built.stats.total_edges, 2);
    assert_eq!(built.stats.unique_characters, 3);
    assert_eq!(built.stats.unique_locations, 1);
    assert_eq!(built.stats.chapters_covered, 1);
    assert_eq!(built.graph.edge_count(), 2);
    let bob_perceptions: Vec<_> = built.perceptions.iter().filter(|p| p.character == "bob").collect();
    assert_eq!(bob_perceptions.len(), 2);
    assert_eq!(built.edges[1].id, "ch0:p1");
    assert_eq!(built.edges[1].content_node, "chapter_0");
}

#[test]
fn build_memory_truncates_long_text() {
    let long: String = std::iter::repeat('字').take(205).collect();
    let built = ledger::builder::build_memory(&vec![raw(2, 3, &["x"], &[], &long, 0)]);
    let d = &built.edges[0].description;
    assert_eq!(d.chars().count(), 201);
    assert!(d.ends_with('…'));
}

#[test]
fn dialogue_counts_each_attribution_once() {
    let text = "第一章 测试\n\n叶凡说道：\u{201C}你好。\u{201D}\n\n叶凡笑道：\u{201C}不错。\u{201D}\n\n庞博问道：\u{201C}怎么了？\u{201D}\n\n叶凡说：\u{201C}走吧。\u{201D}\n";
    let novel = parse_novel(text, "测试");
    let candidates = Roster::discover_from_dialogue(&novel, 1);
    assert_eq!(candidates, vec![("叶凡".to_string(), 3), ("庞博".to_string(), 1)]);
    assert_eq!(paragraph_names("叶凡说道：好"), vec!["叶凡".to_string()]);
}

#[test]
fn events_counted_per_chapter() {
    let events = vec![raw(0, 0, &[], &[], "a", 0), raw(0, 1, &[], &[], "b", 1), raw(2, 0, &[], &[], "c", 2), raw(7, 0, &[], &[], "d", 3)];
    let (per, empty) = ledger::evaluator::events_per_chapter(&events, 4);
    assert_eq!(per, vec![(0, 2), (1, 0), (2, 1), (3, 0)]);
    assert_eq!(empty, 2);
}

#[test]
fn tone_words_counted() {
    assert_eq!(ledger::evaluator::tone_counts("杀死杀死杀死杀死杀死杀死笑笑"), (2, 12));
    assert_eq!(ledger::evaluator::tone_counts("他成功突破了"), (2, 0));
    assert_eq!(ledger::evaluator::tone_counts(""), (0, 0));
}
