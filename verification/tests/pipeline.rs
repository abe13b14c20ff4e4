use dictdoy::entry::DictEntry;
use dictdoy::lookup::lookup;
use dictdoy::lookup::lookup_strict;
use dictdoy::lookup::on_input_changed;
use dictdoy::render::render;
use dictdoy::render::RenderOutput;
use dictdoy::state::AppState;

fn entry(
    simplified: &str,
    pinyin_marks: &str,
    english: &[&str],
    measure_words: &[&str],
    hsk: u8,
) -> DictEntry {
    DictEntry {
        simplified: simplified.to_string(),
        pinyin_marks: pinyin_marks.to_string(),
        english: english.iter().map(|s| s.to_string()).collect(),
        measure_words: measure_words.iter().map(|s| s.to_string()).collect(),
        hsk,
    }
}

#[test]
fn lookup_empty_query_returns_empty() {
    assert_eq!(lookup(""), Vec::new());
}

#[test]
fn lookup_punctuation_only_returns_empty() {
    assert_eq!(lookup("..."), Vec::new());
    assert_eq!(lookup(" \t\n"), Vec::new());
}

#[test]
fn lookup_strict_unanswerable_is_err() {
    assert!(lookup_strict("").is_err());
    assert!(lookup_strict("...").is_err());
}

#[test]
fn lookup_hello_finds_entries() {
    let results = lookup("hello");
    assert!(!results.is_empty());
    for e in &results {
        assert!(!e.simplified.is_empty());
        assert!(!e.pinyin_marks.is_empty());
        assert!(e.simplified != "hello");
    }
    assert!(results
        .iter()
        .any(|e| e.english.iter().any(|g| g.to_lowercase().contains("hello"))));
}

#[test]
fn render_empty_shows_placeholder() {
    let out = render(&Vec::new());
    assert_eq!(
        out,
        RenderOutput::Placeholder("Search some english word".to_string())
    );
}

#[test]
fn render_one_block_per_entry_in_order() {
    let entries = vec![
        entry("你好", "nǐ hǎo", &["hello", "hi"], &[], 1),
        entry("猫", "māo", &["cat"], &["只"], 1),
    ];
    match render(&entries) {
        RenderOutput::Placeholder(_) => panic!("expected blocks"),
        RenderOutput::Blocks(blocks) => {
            assert_eq!(blocks.len(), 2);
            assert_eq!(blocks[0].headword, "你好");
            assert_eq!(blocks[1].headword, "猫");
            assert_eq!(blocks[1].phonetic, "māo");
            assert_eq!(blocks[1].gloss_lines, vec!["\u{2022} cat".to_string()]);
        }
    }
}

#[test]
fn render_hello_scenario() {
    let entries = vec![entry("你好", "nǐhǎo", &["hello"], &[], 1)];
    match render(&entries) {
        RenderOutput::Placeholder(_) => panic!("expected one block"),
        RenderOutput::Blocks(blocks) => {
            assert_eq!(blocks.len(), 1);
            assert_eq!(blocks[0].headword, "你好");
            assert_eq!(blocks[0].phonetic, "nǐhǎo");
            assert_eq!(blocks[0].gloss_lines, vec!["\u{2022} hello".to_string()]);
        }
    }
}

#[test]
fn render_twice_identical() {
    let entries = vec![entry("你好", "nǐ hǎo", &["hello"], &[], 1)];
    assert_eq!(render(&entries), render(&entries));
    let none: Vec<DictEntry> = Vec::new();
    assert_eq!(render(&none), render(&none));
}

#[test]
fn on_input_changed_replaces_state() {
    let mut state = AppState::default();
    assert_eq!(state.label, "");
    assert!(state.search_results.is_empty());
    on_input_changed(&mut state, "hello".to_string());
    assert_eq!(state.label, "hello");
    assert!(!state.search_results.is_empty());
    on_input_changed(&mut state, "...".to_string());
    assert_eq!(state.label, "...");
    assert!(state.search_results.is_empty());
}
