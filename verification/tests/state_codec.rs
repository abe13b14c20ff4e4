use dictdoy::entry::DictEntry;
use dictdoy::state::AppState;
use dictdoy::state::decode_state;
use dictdoy::state::encode_state;

fn sample_entry() -> DictEntry {
    DictEntry {
        simplified: "繁体字".to_string(),
        pinyin_marks: "fán tǐ zì".to_string(),
        english: vec!["traditional Chinese character".to_string()],
        measure_words: vec!["个".to_string()],
        hsk: 6,
    }
}

fn push_text(blob: &mut Vec<u8>, text: &str) {
    let chars: Vec<char> = text.chars().collect();
    blob.extend_from_slice(&(chars.len() as u64).to_le_bytes());
    for c in chars {
        blob.extend_from_slice(&(c as u32).to_le_bytes());
    }
}

#[test]
fn round_trip_full_state() {
    let state = AppState {
        label: "你好 test".to_string(),
        search_results: vec![
            sample_entry(),
            DictEntry {
                simplified: String::new(),
                pinyin_marks: String::new(),
                english: Vec::new(),
                measure_words: Vec::new(),
                hsk: 0,
            },
        ],
    };
    let blob = encode_state(&state);
    assert_eq!(decode_state(&blob), state);
}

#[test]
fn round_trip_default_state() {
    let state = AppState::default();
    let blob = encode_state(&state);
    assert_eq!(decode_state(&blob), state);
}

#[test]
fn empty_blob_reads_default() {
    let read = decode_state(&Vec::new());
    assert_eq!(read, AppState::default());
    assert_eq!(read.label, "");
    assert!(read.search_results.is_empty());
}

#[test]
fn blob_without_result_field_keeps_label_and_defaults_results() {
    let mut blob = Vec::new();
    push_text(&mut blob, "nǐ hǎo");
    let read = decode_state(&blob);
    assert_eq!(read.label, "nǐ hǎo");
    assert!(read.search_results.is_empty());
}

#[test]
fn truncated_blob_reads_default() {
    assert_eq!(decode_state(&vec![1, 2, 3]), AppState::default());
}

#[test]
fn malformed_result_field_keeps_label_and_defaults_results() {
    let mut blob = Vec::new();
    push_text(&mut blob, "abc");
    blob.push(9);
    let read = decode_state(&blob);
    assert_eq!(read.label, "abc");
    assert!(read.search_results.is_empty());
}

#[test]
fn invalid_character_value_reads_default() {
    let mut blob = Vec::new();
    blob.extend_from_slice(&1u64.to_le_bytes());
    blob.extend_from_slice(&0xD800u32.to_le_bytes());
    assert_eq!(decode_state(&blob), AppState::default());
}
