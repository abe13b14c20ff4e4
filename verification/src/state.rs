//! The persisted application state and its byte codec.
//!
//! The state (last query and last results) is written as one byte blob:
//! lengths as eight little-endian bytes, characters as four little-endian
//! bytes of their scalar value, the proficiency tier as one byte.  Reading
//! the blob back is total: a short or malformed blob falls back to
//! field-level defaults instead of failing.

use vstd::prelude::*;
use vstd::bytes::spec_u32_from_le_bytes;
use vstd::bytes::spec_u32_to_le_bytes;
use vstd::bytes::spec_u64_from_le_bytes;
use vstd::bytes::spec_u64_to_le_bytes;
use vstd::bytes::lemma_auto_spec_u32_to_from_le_bytes;
use vstd::bytes::lemma_auto_spec_u64_to_from_le_bytes;
use vstd::utf8::is_scalar;
use vstd::utf8::char_is_scalar;
use vstd::utf8::char_u32_cast;

use crate::entry::DictEntry;
use crate::entry::EntryModel;
use crate::entry::entries_view;

verus! {

/// Mathematical model of the persisted state.
pub struct StateModel {
    pub label: Seq<char>,
    pub search_results: Seq<EntryModel>,
}

/// The application state that outlives a run: the text in the query field
/// and the results it produced.
#[derive(Debug, PartialEq, Eq, Clone)]
pub struct AppState {
    pub label: String,
    pub search_results: Vec<DictEntry>,
}

impl View for AppState {
    type V = StateModel;

    open spec fn view(&self) -> StateModel {
        StateModel {
            label: self.label@,
            search_results: entries_view(self.search_results@),
        }
    }
}

/// The state a fresh run starts from, and the fallback for a blob that
/// cannot be read: the query field is the empty string, the results are
/// the empty sequence.
pub open spec fn default_model() -> StateModel {
    StateModel { label: Seq::empty(), search_results: Seq::empty() }
}

impl Default for AppState {
    /// The default state.
    fn default() -> (s: Self)
        ensures
            s@ == default_model(),
    {
        let s = AppState { label: String::new(), search_results: Vec::new() };
        proof {
            assert(s@.label =~= default_model().label);
            assert(s@.search_results =~= default_model().search_results);
        }
        s
    }
}

// ------------------------------------------------------------------
// The encoding, as mathematics.
// ------------------------------------------------------------------

/// A length or count: eight little-endian bytes.
pub open spec fn enc_u64(v: u64) -> Seq<u8> {
    spec_u64_to_le_bytes(v)
}

/// A character: its Unicode scalar value, four little-endian bytes.
pub open spec fn enc_char(c: char) -> Seq<u8> {
    spec_u32_to_le_bytes(c as u32)
}

/// The characters of a text, one after the other.
pub open spec fn enc_chars(s: Seq<char>) -> Seq<u8>
    decreases s.len(),
{
    if s.len() == 0 {
        Seq::empty()
    } else {
        enc_char(s[0]) + enc_chars(s.drop_first())
    }
}

/// A text: its character count, then its characters.
pub open spec fn enc_text(s: Seq<char>) -> Seq<u8> {
    enc_u64(s.len() as u64) + enc_chars(s)
}

/// Texts, one after the other.
pub open spec fn enc_texts(v: Seq<Seq<char>>) -> Seq<u8>
    decreases v.len(),
{
    if v.len() == 0 {
        Seq::empty()
    } else {
        enc_text(v[0]) + enc_texts(v.drop_first())
    }
}

/// A list of texts: its count, then the texts.
pub open spec fn enc_text_list(v: Seq<Seq<char>>) -> Seq<u8> {
    enc_u64(v.len() as u64) + enc_texts(v)
}

/// One entry: headword, transcription, glosses, measure words, tier.
pub open spec fn enc_entry(e: EntryModel) -> Seq<u8> {
    enc_text(e.simplified) + enc_text(e.pinyin_marks) + enc_text_list(e.english)
        + enc_text_list(e.measure_words) + seq![e.hsk]
}

/// Entries, one after the other.
pub open spec fn enc_entries(v: Seq<EntryModel>) -> Seq<u8>
    decreases v.len(),
{
    if v.len() == 0 {
        Seq::empty()
    } else {
        enc_entry(v[0]) + enc_entries(v.drop_first())
    }
}

/// The whole state: the query text, then the counted result entries.
pub open spec fn enc_state(m: StateModel) -> Seq<u8> {
    enc_text(m.label) + enc_u64(m.search_results.len() as u64) + enc_entries(m.search_results)
}

// ------------------------------------------------------------------
// The decoding, as mathematics.  Each partial reader either fails or
// yields the value and the remaining bytes; the top-level reader is
// total and falls back to defaults field by field.
// ------------------------------------------------------------------

/// Reads a length or count.
pub open spec fn dec_u64(b: Seq<u8>) -> Option<(u64, Seq<u8>)> {
    if b.len() >= 8 {
        Option::Some((spec_u64_from_le_bytes(b.take(8)), b.skip(8)))
    } else {
        Option::None
    }
}

/// Reads one character; fails when the four bytes do not hold a Unicode
/// scalar value.
pub open spec fn dec_char(b: Seq<u8>) -> Option<(char, Seq<u8>)> {
    if b.len() >= 4 {
        let v = spec_u32_from_le_bytes(b.take(4));
        if is_scalar(v) {
            Option::Some((v as char, b.skip(4)))
        } else {
            Option::None
        }
    } else {
        Option::None
    }
}

/// Puts an already read prefix in front of a partial reader's outcome.
pub open spec fn prefixed<T>(prefix: Seq<T>, r: Option<(Seq<T>, Seq<u8>)>) -> Option<
    (Seq<T>, Seq<u8>),
> {
    match r {
        Option::Some((s, rest)) => Option::Some((prefix + s, rest)),
        Option::None => Option::None,
    }
}

/// Reads exactly `n` characters.
pub open spec fn dec_chars(n: nat, b: Seq<u8>) -> Option<(Seq<char>, Seq<u8>)>
    decreases n,
{
    if n == 0 {
        Option::Some((Seq::empty(), b))
    } else {
        match dec_char(b) {
            Option::Some((c, rest)) => prefixed(seq![c], dec_chars((n - 1) as nat, rest)),
            Option::None => Option::None,
        }
    }
}

/// Reads a text: its character count, then that many characters.
pub open spec fn dec_text(b: Seq<u8>) -> Option<(Seq<char>, Seq<u8>)> {
    match dec_u64(b) {
        Option::Some((n, rest)) => dec_chars(n as nat, rest),
        Option::None => Option::None,
    }
}

/// Reads exactly `n` texts.
pub open spec fn dec_texts(n: nat, b: Seq<u8>) -> Option<(Seq<Seq<char>>, Seq<u8>)>
    decreases n,
{
    if n == 0 {
        Option::Some((Seq::empty(), b))
    } else {
        match dec_text(b) {
            Option::Some((s, rest)) => prefixed(seq![s], dec_texts((n - 1) as nat, rest)),
            Option::None => Option::None,
        }
    }
}

/// Reads a list of texts: its count, then that many texts.
pub open spec fn dec_text_list(b: Seq<u8>) -> Option<(Seq<Seq<char>>, Seq<u8>)> {
    match dec_u64(b) {
        Option::Some((n, rest)) => dec_texts(n as nat, rest),
        Option::None => Option::None,
    }
}

/// Reads one entry.
pub open spec fn dec_entry(b: Seq<u8>) -> Option<(EntryModel, Seq<u8>)> {
    match dec_text(b) {
        Option::None => Option::None,
        Option::Some((simplified, b1)) => match dec_text(b1) {
            Option::None => Option::None,
            Option::Some((pinyin_marks, b2)) => match dec_text_list(b2) {
                Option::None => Option::None,
                Option::Some((english, b3)) => match dec_text_list(b3) {
                    Option::None => Option::None,
                    Option::Some((measure_words, b4)) => if b4.len() >= 1 {
                        Option::Some(
                            (
                                EntryModel {
                                    simplified,
                                    pinyin_marks,
                                    english,
                                    measure_words,
                                    hsk: b4[0],
                                },
                                b4.skip(1),
                            ),
                        )
                    } else {
                        Option::None
                    },
                },
            },
        },
    }
}

/// Reads exactly `n` entries.
pub open spec fn dec_entries(n: nat, b: Seq<u8>) -> Option<(Seq<EntryModel>, Seq<u8>)>
    decreases n,
{
    if n == 0 {
        Option::Some((Seq::empty(), b))
    } else {
        match dec_entry(b) {
            Option::Some((e, rest)) => prefixed(seq![e], dec_entries((n - 1) as nat, rest)),
            Option::None => Option::None,
        }
    }
}

/// Reads the result field: empty when the field is missing or malformed.
pub open spec fn dec_results(b: Seq<u8>) -> Seq<EntryModel> {
    match dec_u64(b) {
        Option::None => Seq::empty(),
        Option::Some((n, rest)) => match dec_entries(n as nat, rest) {
            Option::None => Seq::empty(),
            Option::Some((found, _)) => found,
        },
    }
}

/// Reads a whole state.  Total: when the query text cannot be read the
/// whole default state stands in; when only the result field is missing
/// or malformed, the query text is kept and the results default to empty.
pub open spec fn dec_state(b: Seq<u8>) -> StateModel {
    match dec_text(b) {
        Option::None => default_model(),
        Option::Some((label, rest)) => StateModel { label, search_results: dec_results(rest) },
    }
}

// ------------------------------------------------------------------
// Whatever was written can be read back.
// ------------------------------------------------------------------

/// An entry the machine can hold: every field fits its length prefix.
pub open spec fn wf_entry(e: EntryModel) -> bool {
    &&& e.simplified.len() <= u64::MAX
    &&& e.pinyin_marks.len() <= u64::MAX
    &&& e.english.len() <= u64::MAX
    &&& (forall|i: int| 0 <= i < e.english.len() ==> #[trigger] e.english[i].len() <= u64::MAX)
    &&& e.measure_words.len() <= u64::MAX
    &&& (forall|i: int|
        0 <= i < e.measure_words.len() ==> #[trigger] e.measure_words[i].len() <= u64::MAX)
}

/// A state the machine can hold.
pub open spec fn wf_state(m: StateModel) -> bool {
    &&& m.label.len() <= u64::MAX
    &&& m.search_results.len() <= u64::MAX
    &&& (forall|i: int|
        0 <= i < m.search_results.len() ==> #[trigger] wf_entry(m.search_results[i]))
}

proof fn lemma_dec_enc_u64(v: u64, rest: Seq<u8>)
    ensures
        dec_u64(enc_u64(v) + rest) == Some((v, rest)),
{
    lemma_auto_spec_u64_to_from_le_bytes();
    assert((enc_u64(v) + rest).take(8) =~= enc_u64(v));
    assert((enc_u64(v) + rest).skip(8) =~= rest);
}

proof fn lemma_dec_enc_char(c: char, rest: Seq<u8>)
    ensures
        dec_char(enc_char(c) + rest) == Some((c, rest)),
{
    lemma_auto_spec_u32_to_from_le_bytes();
    char_is_scalar(c);
    char_u32_cast(c, c as u32);
    assert((enc_char(c) + rest).take(4) =~= enc_char(c));
    assert((enc_char(c) + rest).skip(4) =~= rest);
}

proof fn lemma_dec_enc_chars(s: Seq<char>, rest: Seq<u8>)
    ensures
        dec_chars(s.len(), enc_chars(s) + rest) == Some((s, rest)),
    decreases s.len(),
{
    if s.len() == 0 {
        assert(enc_chars(s) + rest =~= rest);
        assert(Seq::<char>::empty() =~= s);
    } else {
        let tail = s.drop_first();
        assert(enc_chars(s) + rest =~= enc_char(s[0]) + (enc_chars(tail) + rest));
        lemma_dec_enc_char(s[0], enc_chars(tail) + rest);
        lemma_dec_enc_chars(tail, rest);
        assert(seq![s[0]] + tail =~= s);
    }
}

proof fn lemma_dec_enc_text(s: Seq<char>, rest: Seq<u8>)
    requires
        s.len() <= u64::MAX,
    ensures
        dec_text(enc_text(s) + rest) == Some((s, rest)),
{
    assert(enc_text(s) + rest =~= enc_u64(s.len() as u64) + (enc_chars(s) + rest));
    lemma_dec_enc_u64(s.len() as u64, enc_chars(s) + rest);
    lemma_dec_enc_chars(s, rest);
}

proof fn lemma_dec_enc_texts(v: Seq<Seq<char>>, rest: Seq<u8>)
    requires
        forall|i: int| 0 <= i < v.len() ==> #[trigger] v[i].len() <= u64::MAX,
    ensures
        dec_texts(v.len(), enc_texts(v) + rest) == Some((v, rest)),
    decreases v.len(),
{
    if v.len() == 0 {
        assert(enc_texts(v) + rest =~= rest);
        assert(Seq::<Seq<char>>::empty() =~= v);
    } else {
        let tail = v.drop_first();
        assert(enc_texts(v) + rest =~= enc_text(v[0]) + (enc_texts(tail) + rest));
        lemma_dec_enc_text(v[0], enc_texts(tail) + rest);
        lemma_dec_enc_texts(tail, rest);
        assert(seq![v[0]] + tail =~= v);
    }
}

proof fn lemma_dec_enc_text_list(v: Seq<Seq<char>>, rest: Seq<u8>)
    requires
        v.len() <= u64::MAX,
        forall|i: int| 0 <= i < v.len() ==> #[trigger] v[i].len() <= u64::MAX,
    ensures
        dec_text_list(enc_text_list(v) + rest) == Some((v, rest)),
{
    assert(enc_text_list(v) + rest =~= enc_u64(v.len() as u64) + (enc_texts(v) + rest));
    lemma_dec_enc_u64(v.len() as u64, enc_texts(v) + rest);
    lemma_dec_enc_texts(v, rest);
}

proof fn lemma_dec_enc_entry(e: EntryModel, rest: Seq<u8>)
    requires
        wf_entry(e),
    ensures
        dec_entry(enc_entry(e) + rest) == Some((e, rest)),
{
    let b1 = enc_text(e.pinyin_marks) + enc_text_list(e.english) + enc_text_list(e.measure_words)
        + seq![e.hsk] + rest;
    let b2 = enc_text_list(e.english) + enc_text_list(e.measure_words) + seq![e.hsk] + rest;
    let b3 = enc_text_list(e.measure_words) + seq![e.hsk] + rest;
    let b4 = seq![e.hsk] + rest;
    assert(enc_entry(e) + rest =~= enc_text(e.simplified) + b1);
    lemma_dec_enc_text(e.simplified, b1);
    assert(b1 =~= enc_text(e.pinyin_marks) + b2);
    lemma_dec_enc_text(e.pinyin_marks, b2);
    assert(b2 =~= enc_text_list(e.english) + b3);
    lemma_dec_enc_text_list(e.english, b3);
    assert(b3 =~= enc_text_list(e.measure_words) + b4);
    lemma_dec_enc_text_list(e.measure_words, b4);
    assert(b4[0] == e.hsk);
    assert(b4.skip(1) =~= rest);
}

proof fn lemma_dec_enc_entries(v: Seq<EntryModel>, rest: Seq<u8>)
    requires
        forall|i: int| 0 <= i < v.len() ==> #[trigger] wf_entry(v[i]),
    ensures
        dec_entries(v.len(), enc_entries(v) + rest) == Some((v, rest)),
    decreases v.len(),
{
    if v.len() == 0 {
        assert(enc_entries(v) + rest =~= rest);
        assert(Seq::<EntryModel>::empty() =~= v);
    } else {
        let tail = v.drop_first();
        assert(enc_entries(v) + rest =~= enc_entry(v[0]) + (enc_entries(tail) + rest));
        lemma_dec_enc_entry(v[0], enc_entries(tail) + rest);
        lemma_dec_enc_entries(tail, rest);
        assert(seq![v[0]] + tail =~= v);
    }
}

/// Round trip: reading back an encoded state yields that state, for every
/// state the machine can hold.
pub proof fn lemma_state_round_trip(m: StateModel)
    requires
        wf_state(m),
    ensures
        dec_state(enc_state(m)) == m,
{
    let after_label = enc_u64(m.search_results.len() as u64) + enc_entries(m.search_results);
    assert(enc_state(m) =~= enc_text(m.label) + after_label);
    lemma_dec_enc_text(m.label, after_label);
    assert(after_label =~= enc_u64(m.search_results.len() as u64) + (enc_entries(
        m.search_results,
    ) + Seq::<u8>::empty()));
    lemma_dec_enc_u64(
        m.search_results.len() as u64,
        enc_entries(m.search_results) + Seq::<u8>::empty(),
    );
    lemma_dec_enc_entries(m.search_results, Seq::<u8>::empty());
    assert(dec_state(enc_state(m)) =~= m);
}

/// A blob from before the result field existed — one that ends right
/// after the query text — still reads back: the text is kept and the
/// missing field defaults to no results.
pub proof fn lemma_missing_results_field_defaults(label: Seq<char>)
    requires
        label.len() <= u64::MAX,
    ensures
        dec_state(enc_text(label)) == (StateModel { label, search_results: Seq::empty() }),
{
    assert(enc_text(label) =~= enc_text(label) + Seq::<u8>::empty());
    lemma_dec_enc_text(label, Seq::<u8>::empty());
}

/// An empty blob — no persisted state at all — reads back as the default
/// state.
pub proof fn lemma_empty_blob_defaults()
    ensures
        dec_state(Seq::<u8>::empty()) == default_model(),
{
}

// ------------------------------------------------------------------
// Writing a state out.
// ------------------------------------------------------------------

proof fn lemma_enc_chars_snoc(s: Seq<char>, c: char)
    ensures
        enc_chars(s.push(c)) == enc_chars(s) + enc_char(c),
    decreases s.len(),
{
    if s.len() == 0 {
        assert(s.push(c)[0] == c);
        assert(s.push(c).drop_first() =~= Seq::<char>::empty());
        assert(enc_chars(s.push(c)) == enc_char(c) + enc_chars(Seq::<char>::empty()));
        assert(enc_char(c) + Seq::<u8>::empty() =~= enc_char(c));
        assert(enc_chars(s) + enc_char(c) =~= enc_char(c));
    } else {
        assert(s.push(c)[0] == s[0]);
        assert(s.push(c).drop_first() =~= s.drop_first().push(c));
        lemma_enc_chars_snoc(s.drop_first(), c);
        assert(enc_chars(s.push(c)) == enc_char(s[0]) + (enc_chars(s.drop_first()) + enc_char(c)));
        assert(enc_char(s[0]) + (enc_chars(s.drop_first()) + enc_char(c)) =~= (enc_char(s[0])
            + enc_chars(s.drop_first())) + enc_char(c));
    }
}

proof fn lemma_enc_texts_snoc(v: Seq<Seq<char>>, s: Seq<char>)
    ensures
        enc_texts(v.push(s)) == enc_texts(v) + enc_text(s),
    decreases v.len(),
{
    if v.len() == 0 {
        assert(v.push(s)[0] == s);
        assert(v.push(s).drop_first() =~= Seq::<Seq<char>>::empty());
        assert(enc_texts(v.push(s)) == enc_text(s) + enc_texts(Seq::<Seq<char>>::empty()));
        assert(enc_text(s) + Seq::<u8>::empty() =~= enc_text(s));
        assert(enc_texts(v) + enc_text(s) =~= enc_text(s));
    } else {
        assert(v.push(s)[0] == v[0]);
        assert(v.push(s).drop_first() =~= v.drop_first().push(s));
        lemma_enc_texts_snoc(v.drop_first(), s);
        assert(enc_texts(v.push(s)) == enc_text(v[0]) + (enc_texts(v.drop_first()) + enc_text(s)));
        assert(enc_text(v[0]) + (enc_texts(v.drop_first()) + enc_text(s)) =~= (enc_text(v[0])
            + enc_texts(v.drop_first())) + enc_text(s));
    }
}

proof fn lemma_enc_entries_snoc(v: Seq<EntryModel>, e: EntryModel)
    ensures
        enc_entries(v.push(e)) == enc_entries(v) + enc_entry(e),
    decreases v.len(),
{
    if v.len() == 0 {
        assert(v.push(e)[0] == e);
        assert(v.push(e).drop_first() =~= Seq::<EntryModel>::empty());
        assert(enc_entries(v.push(e)) == enc_entry(e) + enc_entries(Seq::<EntryModel>::empty()));
        assert(enc_entry(e) + Seq::<u8>::empty() =~= enc_entry(e));
        assert(enc_entries(v) + enc_entry(e) =~= enc_entry(e));
    } else {
        assert(v.push(e)[0] == v[0]);
        assert(v.push(e).drop_first() =~= v.drop_first().push(e));
        lemma_enc_entries_snoc(v.drop_first(), e);
        assert(enc_entries(v.push(e)) == enc_entry(v[0]) + (enc_entries(v.drop_first())
            + enc_entry(e)));
        assert(enc_entry(v[0]) + (enc_entries(v.drop_first()) + enc_entry(e)) =~= (enc_entry(v[0])
            + enc_entries(v.drop_first())) + enc_entry(e));
    }
}

fn write_u64(out: &mut Vec<u8>, v: u64)
    ensures
        final(out)@ == old(out)@ + enc_u64(v),
{
    let mut bytes = vstd::bytes::u64_to_le_bytes(v);
    out.append(&mut bytes);
}

fn write_char(out: &mut Vec<u8>, c: char)
    ensures
        final(out)@ == old(out)@ + enc_char(c),
{
    let mut bytes = vstd::bytes::u32_to_le_bytes(c as u32);
    out.append(&mut bytes);
}

fn write_text(out: &mut Vec<u8>, s: &String)
    ensures
        final(out)@ == old(out)@ + enc_text(s@),
{
    let n = s.as_str().unicode_len();
    write_u64(out, n as u64);
    let ghost base = out@;
    let mut i: usize = 0;
    while i < n
        invariant
            n == s@.len(),
            i <= n,
            out@ == base + enc_chars(s@.take(i as int)),
        decreases n - i,
    {
        let c = s.as_str().get_char(i);
        write_char(out, c);
        proof {
            lemma_enc_chars_snoc(s@.take(i as int), c);
            assert(s@.take(i as int).push(s@[i as int]) =~= s@.take(i as int + 1));
            assert(out@ =~= base + enc_chars(s@.take(i as int + 1)));
        }
        i = i + 1;
    }
    proof {
        assert(s@.take(n as int) =~= s@);
        assert(out@ =~= old(out)@ + enc_text(s@));
    }
}

fn write_text_list(out: &mut Vec<u8>, v: &Vec<String>)
    ensures
        final(out)@ == old(out)@ + enc_text_list(v.deep_view()),
{
    write_u64(out, v.len() as u64);
    let ghost base = out@;
    let mut i: usize = 0;
    while i < v.len()
        invariant
            i <= v@.len(),
            out@ == base + enc_texts(v.deep_view().take(i as int)),
        decreases v@.len() - i,
    {
        write_text(out, &v[i]);
        proof {
            lemma_enc_texts_snoc(v.deep_view().take(i as int), v@[i as int]@);
            assert(v.deep_view().take(i as int).push(v.deep_view()[i as int]) =~= v.deep_view().take(
                i as int + 1,
            ));
            assert(out@ =~= base + enc_texts(v.deep_view().take(i as int + 1)));
        }
        i = i + 1;
    }
    proof {
        assert(v.deep_view().take(v@.len() as int) =~= v.deep_view());
        assert(out@ =~= old(out)@ + enc_text_list(v.deep_view()));
    }
}

fn write_entry(out: &mut Vec<u8>, e: &DictEntry)
    ensures
        final(out)@ == old(out)@ + enc_entry(e@),
{
    write_text(out, &e.simplified);
    write_text(out, &e.pinyin_marks);
    write_text_list(out, &e.english);
    write_text_list(out, &e.measure_words);
    out.push(e.hsk);
    proof {
        assert(out@ =~= old(out)@ + enc_entry(e@));
    }
}

/// Writes a state as one byte blob, the one the readers below read back.
pub fn encode_state(state: &AppState) -> (out: Vec<u8>)
    ensures
        out@ == enc_state(state@),
{
    let mut out: Vec<u8> = Vec::new();
    write_text(&mut out, &state.label);
    write_u64(&mut out, state.search_results.len() as u64);
    let ghost base = out@;
    let ghost results = entries_view(state.search_results@);
    let mut i: usize = 0;
    while i < state.search_results.len()
        invariant
            i <= state.search_results@.len(),
            results == entries_view(state.search_results@),
            out@ == base + enc_entries(results.take(i as int)),
        decreases state.search_results@.len() - i,
    {
        write_entry(&mut out, &state.search_results[i]);
        proof {
            lemma_enc_entries_snoc(results.take(i as int), results[i as int]);
            assert(results.take(i as int).push(results[i as int]) =~= results.take(i as int + 1));
            assert(out@ =~= base + enc_entries(results.take(i as int + 1)));
        }
        i = i + 1;
    }
    proof {
        assert(results.take(state.search_results@.len() as int) =~= results);
        assert(out@ =~= enc_state(state@));
    }
    out
}

// ------------------------------------------------------------------
// Reading a state back.
// ------------------------------------------------------------------

/// Relies on char::from_u32: it answers `Some` exactly for the Unicode
/// scalar values, and the character it answers for one has that value.
pub assume_specification[ char::from_u32 ](v: u32) -> (r: Option<char>)
    ensures
        r is Some <==> is_scalar(v),
        (r matches Some(c) ==> c as u32 == v),
;

/// Relies on String::push: it appends exactly the given character.
#[verifier::external_body]
pub(crate) fn push_char(s: &mut String, c: char)
    ensures
        final(s)@ == old(s)@.push(c),
{
    s.push(c);
}

fn read_u64(bytes: &Vec<u8>, pos: usize) -> (r: Option<(u64, usize)>)
    requires
        pos <= bytes@.len(),
    ensures
        (match r {
            Some((v, end)) => pos <= end <= bytes@.len() && dec_u64(bytes@.skip(pos as int))
                == Some((v, bytes@.skip(end as int))),
            None => dec_u64(bytes@.skip(pos as int)) is None,
        }),
{
    if bytes.len() - pos >= 8 {
        let piece = vstd::slice::slice_subrange(bytes.as_slice(), pos, pos + 8);
        let v = vstd::bytes::u64_from_le_bytes(piece);
        proof {
            assert(bytes@.skip(pos as int).take(8) =~= bytes@.subrange(pos as int, pos as int + 8));
            assert(bytes@.skip(pos as int).skip(8) =~= bytes@.skip(pos as int + 8));
        }
        Some((v, pos + 8))
    } else {
        None
    }
}

fn read_char(bytes: &Vec<u8>, pos: usize) -> (r: Option<(char, usize)>)
    requires
        pos <= bytes@.len(),
    ensures
        (match r {
            Some((c, end)) => pos <= end <= bytes@.len() && dec_char(bytes@.skip(pos as int))
                == Some((c, bytes@.skip(end as int))),
            None => dec_char(bytes@.skip(pos as int)) is None,
        }),
{
    if bytes.len() - pos >= 4 {
        let piece = vstd::slice::slice_subrange(bytes.as_slice(), pos, pos + 4);
        let v = vstd::bytes::u32_from_le_bytes(piece);
        proof {
            assert(bytes@.skip(pos as int).take(4) =~= bytes@.subrange(pos as int, pos as int + 4));
            assert(bytes@.skip(pos as int).skip(4) =~= bytes@.skip(pos as int + 4));
        }
        match char::from_u32(v) {
            Some(c) => {
                proof {
                    char_u32_cast(c, v);
                }
                Some((c, pos + 4))
            },
            None => None,
        }
    } else {
        None
    }
}

#[verifier::loop_isolation(false)]
fn read_text(bytes: &Vec<u8>, pos: usize) -> (r: Option<(String, usize)>)
    requires
        pos <= bytes@.len(),
    ensures
        (match r {
            Some((text, end)) => pos <= end <= bytes@.len() && dec_text(bytes@.skip(pos as int))
                == Some((text@, bytes@.skip(end as int))),
            None => dec_text(bytes@.skip(pos as int)) is None,
        }),
{
    match read_u64(bytes, pos) {
        None => None,
        Some((n, start)) => {
            let ghost whole = dec_chars(n as nat, bytes@.skip(start as int));
            let mut text = String::new();
            let mut cur: usize = start;
            let mut k: u64 = 0;
            proof {
                match whole {
                    Option::Some(p) => {
                        assert(Seq::<char>::empty() + p.0 =~= p.0);
                    },
                    Option::None => {},
                }
            }
            while k < n
                invariant
                    k <= n,
                    pos <= cur <= bytes@.len(),
                    whole == prefixed(text@, dec_chars((n - k) as nat, bytes@.skip(cur as int))),
                decreases n - k,
            {
                match read_char(bytes, cur) {
                    None => {
                        proof {
                            assert(dec_chars((n - k) as nat, bytes@.skip(cur as int)) is None);
                        }
                        return None;
                    },
                    Some((c, next)) => {
                        proof {
                            let tail = dec_chars((n - k - 1) as nat, bytes@.skip(next as int));
                            assert(dec_chars((n - k) as nat, bytes@.skip(cur as int)) == prefixed(
                                seq![c],
                                tail,
                            ));
                            if tail is Some {
                                assert(text@ + (seq![c] + tail->Some_0.0) =~= text@.push(c)
                                    + tail->Some_0.0);
                            }
                        }
                        push_char(&mut text, c);
                        cur = next;
                        k = k + 1;
                    },
                }
            }
            proof {
                assert(dec_chars((n - k) as nat, bytes@.skip(cur as int)) == Some((
                    Seq::<char>::empty(),
                    bytes@.skip(cur as int),
                )));
                assert(text@ + Seq::<char>::empty() =~= text@);
            }
            Some((text, cur))
        },
    }
}

#[verifier::loop_isolation(false)]
fn read_text_list(bytes: &Vec<u8>, pos: usize) -> (r: Option<(Vec<String>, usize)>)
    requires
        pos <= bytes@.len(),
    ensures
        (match r {
            Some((items, end)) => pos <= end <= bytes@.len() && dec_text_list(
                bytes@.skip(pos as int),
            ) == Some((items.deep_view(), bytes@.skip(end as int))),
            None => dec_text_list(bytes@.skip(pos as int)) is None,
        }),
{
    match read_u64(bytes, pos) {
        None => None,
        Some((n, start)) => {
            let ghost whole = dec_texts(n as nat, bytes@.skip(start as int));
            let mut items: Vec<String> = Vec::new();
            let mut cur: usize = start;
            let mut k: u64 = 0;
            proof {
                assert(items.deep_view() =~= Seq::<Seq<char>>::empty());
                match whole {
                    Option::Some(p) => {
                        assert(Seq::<Seq<char>>::empty() + p.0 =~= p.0);
                    },
                    Option::None => {},
                }
            }
            while k < n
                invariant
                    k <= n,
                    pos <= cur <= bytes@.len(),
                    whole == prefixed(items.deep_view(), dec_texts((n - k) as nat, bytes@.skip(cur as int))),
                decreases n - k,
            {
                match read_text(bytes, cur) {
                    None => {
                        proof {
                            assert(dec_texts((n - k) as nat, bytes@.skip(cur as int)) is None);
                        }
                        return None;
                    },
                    Some((text, next)) => {
                        proof {
                            let tail = dec_texts((n - k - 1) as nat, bytes@.skip(next as int));
                            assert(dec_texts((n - k) as nat, bytes@.skip(cur as int)) == prefixed(
                                seq![text@],
                                tail,
                            ));
                            if tail is Some {
                                assert(items.deep_view() + (seq![text@] + tail->Some_0.0)
                                    =~= items.deep_view().push(text@) + tail->Some_0.0);
                            }
                            assert(items@.push(text).map_values(|t: String| t.deep_view())
                                =~= items.deep_view().push(text@));
                        }
                        items.push(text);
                        cur = next;
                        k = k + 1;
                    },
                }
            }
            proof {
                assert(dec_texts((n - k) as nat, bytes@.skip(cur as int)) == Some((
                    Seq::<Seq<char>>::empty(),
                    bytes@.skip(cur as int),
                )));
                assert(items.deep_view() + Seq::<Seq<char>>::empty() =~= items.deep_view());
            }
            Some((items, cur))
        },
    }
}

fn read_entry(bytes: &Vec<u8>, pos: usize) -> (r: Option<(DictEntry, usize)>)
    requires
        pos <= bytes@.len(),
    ensures
        (match r {
            Some((e, end)) => pos <= end <= bytes@.len() && dec_entry(bytes@.skip(pos as int))
                == Some((e@, bytes@.skip(end as int))),
            None => dec_entry(bytes@.skip(pos as int)) is None,
        }),
{
    let (simplified, p1) = match read_text(bytes, pos) {
        None => {
            return None;
        },
        Some(found) => found,
    };
    let (pinyin_marks, p2) = match read_text(bytes, p1) {
        None => {
            return None;
        },
        Some(found) => found,
    };
    let (english, p3) = match read_text_list(bytes, p2) {
        None => {
            return None;
        },
        Some(found) => found,
    };
    let (measure_words, p4) = match read_text_list(bytes, p3) {
        None => {
            return None;
        },
        Some(found) => found,
    };
    if p4 < bytes.len() {
        let hsk = bytes[p4];
        let e = DictEntry { simplified, pinyin_marks, english, measure_words, hsk };
        proof {
            let b4 = bytes@.skip(p4 as int);
            assert(b4[0] == bytes@[p4 as int]);
            assert(b4.skip(1) =~= bytes@.skip(p4 as int + 1));
        }
        Some((e, p4 + 1))
    } else {
        proof {
            assert(bytes@.skip(p4 as int).len() == 0);
        }
        None
    }
}

#[verifier::loop_isolation(false)]
fn read_results(bytes: &Vec<u8>, pos: usize) -> (results: Vec<DictEntry>)
    requires
        pos <= bytes@.len(),
    ensures
        entries_view(results@) == dec_results(bytes@.skip(pos as int)),
{
    match read_u64(bytes, pos) {
        None => {
            let empty: Vec<DictEntry> = Vec::new();
            proof {
                assert(entries_view(empty@) =~= Seq::<EntryModel>::empty());
            }
            empty
        },
        Some((n, start)) => {
            let ghost whole = dec_entries(n as nat, bytes@.skip(start as int));
            let mut found: Vec<DictEntry> = Vec::new();
            let mut cur: usize = start;
            let mut k: u64 = 0;
            proof {
                assert(entries_view(found@) =~= Seq::<EntryModel>::empty());
                match whole {
                    Option::Some(p) => {
                        assert(Seq::<EntryModel>::empty() + p.0 =~= p.0);
                    },
                    Option::None => {},
                }
            }
            while k < n
                invariant
                    k <= n,
                    cur <= bytes@.len(),
                    whole == prefixed(entries_view(found@), dec_entries((n - k) as nat, bytes@.skip(cur as int))),
                decreases n - k,
            {
                match read_entry(bytes, cur) {
                    None => {
                        proof {
                            assert(dec_entries((n - k) as nat, bytes@.skip(cur as int)) is None);
                        }
                        let empty: Vec<DictEntry> = Vec::new();
                        proof {
                            assert(entries_view(empty@) =~= Seq::<EntryModel>::empty());
                        }
                        return empty;
                    },
                    Some((e, next)) => {
                        proof {
                            let tail = dec_entries((n - k - 1) as nat, bytes@.skip(next as int));
                            assert(dec_entries((n - k) as nat, bytes@.skip(cur as int)) == prefixed(
                                seq![e@],
                                tail,
                            ));
                            if tail is Some {
                                assert(entries_view(found@) + (seq![e@] + tail->Some_0.0)
                                    =~= entries_view(found@).push(e@) + tail->Some_0.0);
                            }
                            assert(entries_view(found@.push(e)) =~= entries_view(found@).push(e@));
                        }
                        found.push(e);
                        cur = next;
                        k = k + 1;
                    },
                }
            }
            proof {
                assert(dec_entries((n - k) as nat, bytes@.skip(cur as int)) == Some((
                    Seq::<EntryModel>::empty(),
                    bytes@.skip(cur as int),
                )));
                assert(entries_view(found@) + Seq::<EntryModel>::empty() =~= entries_view(found@));
            }
            found
        },
    }
}

/// Reads a state back from a byte blob.  Total: a blob that cannot be
/// read, wholly or in its result field, falls back to the defaults, field
/// by field, exactly as the mathematical reader says.
pub fn decode_state(bytes: &Vec<u8>) -> (state: AppState)
    ensures
        state@ == dec_state(bytes@),
{
    proof {
        assert(bytes@.skip(0) =~= bytes@);
    }
    match read_text(bytes, 0) {
        None => AppState::default(),
        Some((label, cur)) => {
            let search_results = read_results(bytes, cur);
            AppState { label, search_results }
        },
    }
}

} // verus!
