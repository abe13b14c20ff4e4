use dictdoy::console::format_entry;
use dictdoy::entry::DictEntry;

fn entry(english: &[&str], measure_words: &[&str], hsk: u8) -> DictEntry {
    DictEntry {
        simplified: "你好".to_string(),
        pinyin_marks: "nǐ hǎo".to_string(),
        english: english.iter().map(|s| s.to_string()).collect(),
        measure_words: measure_words.iter().map(|s| s.to_string()).collect(),
        hsk,
    }
}

#[test]
fn format_entry_layout() {
    let text = format_entry(&entry(&["hello", "hi"], &[], 1));
    assert_eq!(
        text,
        "Simplified: 你好\nPinyin Marks: nǐ hǎo\nEnglish: hello; hi\nMeasure Words: \nHSK: 1"
    );
}

#[test]
fn format_entry_measure_words_joined() {
    let text = format_entry(&entry(&["hello"], &["个", "位"], 0));
    assert!(text.contains("\nMeasure Words: 个; 位\n"));
    assert!(text.ends_with("HSK: 0"));
}

#[test]
fn format_entry_multi_digit_level() {
    assert!(format_entry(&entry(&[], &[], 42)).ends_with("HSK: 42"));
    assert!(format_entry(&entry(&[], &[], 255)).ends_with("HSK: 255"));
    assert!(format_entry(&entry(&[], &[], 100)).ends_with("HSK: 100"));
}
