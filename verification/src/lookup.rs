//! The lookup adapter: free text in, an ordered sequence of entries out.

use vstd::prelude::*;

use crate::entry::DictEntry;
use crate::entry::EntryModel;
use crate::entry::entries_view;

verus! {

/// What the backing dictionary answers for a given query text.  The
/// dictionary is a fixed data set embedded in its crate, so the answer
/// is a function of the query text alone: `None` when the text holds no
/// searchable word (only whitespace or punctuation, or a script the
/// index cannot classify), otherwise the ordered matches, possibly none.
pub uninterp spec fn dict_response(query: Seq<char>) -> Option<Seq<EntryModel>>;

/// The model of an optional result sequence.
pub open spec fn response_view(r: Option<Vec<DictEntry>>) -> Option<Seq<EntryModel>> {
    match r {
        Option::Some(v) => Option::Some(entries_view(v@)),
        Option::None => Option::None,
    }
}

/// Relies on chinese_dictionary::query: it looks the text up in fixed
/// embedded indexes, so equal texts give equal answers, and a query that
/// normalizes to the empty string (in particular the empty query) returns
/// `None`.  The body only copies the fields the pipeline reads; a measure
/// word is kept as its simplified written form.
#[verifier::external_body]
fn query_dict(word: &str) -> (r: Option<Vec<DictEntry>>)
    ensures
        response_view(r) == dict_response(word@),
        word@.len() == 0 ==> r is None,
{
    chinese_dictionary::query(word).map(|found| {
        found
            .into_iter()
            .map(|e| DictEntry {
                simplified: e.simplified.clone(),
                pinyin_marks: e.pinyin_marks.clone(),
                english: e.english.clone(),
                measure_words: e.measure_words.iter().map(|m| m.simplified.clone()).collect(),
                hsk: e.hsk,
            })
            .collect()
    })
}

/// Turns an optional answer into one uniform sequence: an absent answer
/// and an answer with no matches both become the empty sequence.
pub open spec fn normalized(r: Option<Seq<EntryModel>>) -> Seq<EntryModel> {
    match r {
        Option::Some(found) => found,
        Option::None => Seq::empty(),
    }
}

/// Looks the text up and normalizes the answer, so that a caller sees one
/// ordered sequence of matches, empty whenever there is nothing to show,
/// and never a failure value.
pub fn lookup(word: &str) -> (results: Vec<DictEntry>)
    ensures
        entries_view(results@) == normalized(dict_response(word@)),
        word@.len() == 0 ==> results@.len() == 0,
{
    let found = query_dict(word);
    match found {
        Option::Some(results) => results,
        Option::None => {
            let empty: Vec<DictEntry> = Vec::new();
            proof {
                assert(entries_view(empty@) =~= Seq::<EntryModel>::empty());
            }
            empty
        },
    }
}

/// The dictionary gave no answer at all: the text normalized to nothing
/// searchable, or its script could not be classified.
pub struct NoAnswer;

/// Looks the text up and keeps the absent answer apart, for the caller
/// that treats it as a fatal condition: `Err` exactly when the dictionary
/// gives no answer at all, `Ok` with the matches (possibly none) otherwise.
pub fn lookup_strict(word: &str) -> (r: Result<Vec<DictEntry>, NoAnswer>)
    ensures
        r matches Ok(results) ==> dict_response(word@) matches Some(found)
            && entries_view(results@) == found,
        r is Err <==> dict_response(word@) is None,
{
    match query_dict(word) {
        Option::Some(results) => Ok(results),
        Option::None => Err(NoAnswer),
    }
}

/// Takes the query text the input field holds after a change, looks it
/// up, and replaces the whole state: the new text and the matches it
/// produced, never a stale mixture of the two.
pub fn on_input_changed(state: &mut crate::state::AppState, new_label: String)
    ensures
        final(state)@.label == new_label@,
        final(state)@.search_results == normalized(dict_response(new_label@)),
{
    let results = lookup(new_label.as_str());
    state.label = new_label;
    state.search_results = results;
}

/// Both ways in which the dictionary can answer "nothing" lead to the
/// same empty sequence at the adapter boundary: an absent answer and a
/// present answer with zero matches.
pub proof fn lemma_no_match_is_empty(r: Option<Seq<EntryModel>>)
    requires
        r is None || r == Some(Seq::<EntryModel>::empty()),
    ensures
        normalized(r) == Seq::<EntryModel>::empty(),
{
}

} // verus!
