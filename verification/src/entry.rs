//! The dictionary entry value type and its mathematical model.

use vstd::prelude::*;

verus! {

/// Mathematical model of one dictionary entry: the headword in simplified
/// script, its tonal phonetic transcription, the ordered English glosses,
/// the classifier (measure) words, and the proficiency tier, zero when the
/// word is unclassified.
pub struct EntryModel {
    pub simplified: Seq<char>,
    pub pinyin_marks: Seq<char>,
    pub english: Seq<Seq<char>>,
    pub measure_words: Seq<Seq<char>>,
    pub hsk: u8,
}

/// One dictionary entry as the lookup hands it out.  Entries are values:
/// the pipeline never mutates one, it only replaces the whole result
/// sequence on a new query.
#[derive(Debug, PartialEq, Eq, Clone)]
pub struct DictEntry {
    pub simplified: String,
    pub pinyin_marks: String,
    pub english: Vec<String>,
    pub measure_words: Vec<String>,
    pub hsk: u8,
}

impl View for DictEntry {
    type V = EntryModel;

    open spec fn view(&self) -> EntryModel {
        EntryModel {
            simplified: self.simplified@,
            pinyin_marks: self.pinyin_marks@,
            english: self.english.deep_view(),
            measure_words: self.measure_words.deep_view(),
            hsk: self.hsk,
        }
    }
}

/// The model of a whole result sequence.
pub open spec fn entries_view(v: Seq<DictEntry>) -> Seq<EntryModel> {
    v.map_values(|e: DictEntry| e@)
}

} // verus!
