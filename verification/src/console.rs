//! The console text layout: one block of labeled lines per entry.

use vstd::prelude::*;

use crate::entry::DictEntry;
use crate::entry::EntryModel;
use crate::state::push_char;

verus! {

/// The character for one decimal digit.
pub open spec fn digit_char(d: nat) -> char
    recommends
        d < 10,
{
    ((48 + d) as u8) as char
}

/// A number written in decimal, most significant digit first.
pub open spec fn decimal_digits(n: nat) -> Seq<char>
    decreases n,
{
    if n < 10 {
        seq![digit_char(n)]
    } else {
        decimal_digits(n / 10).push(digit_char(n % 10))
    }
}

/// Texts joined by a separating "; ".
pub open spec fn joined(texts: Seq<Seq<char>>) -> Seq<char>
    decreases texts.len(),
{
    if texts.len() == 0 {
        Seq::empty()
    } else if texts.len() == 1 {
        texts[0]
    } else {
        texts[0] + "; "@ + joined(texts.drop_first())
    }
}

/// The console block for one entry: one labeled line for the headword,
/// the transcription, the glosses, the measure words and the tier.
pub open spec fn entry_text(e: EntryModel) -> Seq<char> {
    "Simplified: "@ + e.simplified + "\nPinyin Marks: "@ + e.pinyin_marks + "\nEnglish: "@
        + joined(e.english) + "\nMeasure Words: "@ + joined(e.measure_words) + "\nHSK: "@
        + decimal_digits(e.hsk as nat)
}

proof fn lemma_joined_snoc(texts: Seq<Seq<char>>, last: Seq<char>)
    ensures
        texts.len() == 0 ==> joined(texts.push(last)) == last,
        texts.len() > 0 ==> joined(texts.push(last)) == joined(texts) + "; "@ + last,
    decreases texts.len(),
{
    if texts.len() == 0 {
        assert(texts.push(last)[0] == last);
    } else if texts.len() == 1 {
        assert(texts.push(last)[0] == texts[0]);
        assert(texts.push(last).drop_first() =~= seq![last]);
        assert(joined(seq![last]) == last);
    } else {
        assert(texts.push(last)[0] == texts[0]);
        assert(texts.push(last).drop_first() =~= texts.drop_first().push(last));
        lemma_joined_snoc(texts.drop_first(), last);
        assert(texts[0] + "; "@ + (joined(texts.drop_first()) + "; "@ + last) =~= (texts[0] + "; "@
            + joined(texts.drop_first())) + "; "@ + last);
    }
}

/// Joins texts with "; " between two neighbours.
fn join_texts(texts: &Vec<String>) -> (joined_text: String)
    ensures
        joined_text@ == joined(texts.deep_view()),
{
    let mut joined_text = String::new();
    let mut i: usize = 0;
    while i < texts.len()
        invariant
            i <= texts@.len(),
            joined_text@ == joined(texts.deep_view().take(i as int)),
        decreases texts@.len() - i,
    {
        if i > 0 {
            joined_text.append("; ");
        }
        joined_text.append(texts[i].as_str());
        proof {
            lemma_joined_snoc(texts.deep_view().take(i as int), texts@[i as int]@);
            assert(texts.deep_view().take(i as int).push(texts.deep_view()[i as int])
                =~= texts.deep_view().take(i as int + 1));
        }
        i = i + 1;
    }
    proof {
        assert(texts.deep_view().take(texts@.len() as int) =~= texts.deep_view());
    }
    joined_text
}

/// Writes a number in decimal.
fn u8_decimal(n: u8) -> (s: String)
    ensures
        s@ == decimal_digits(n as nat),
{
    let mut s = String::new();
    if n >= 100 {
        push_char(&mut s, (48 + n / 100) as char);
    }
    if n >= 10 {
        push_char(&mut s, (48 + (n / 10) % 10) as char);
    }
    push_char(&mut s, (48 + n % 10) as char);
    proof {
        if n >= 100 {
            assert(decimal_digits(n as nat) == decimal_digits(n as nat / 10).push(
                digit_char(n as nat % 10),
            ));
            assert(decimal_digits(n as nat / 10) == decimal_digits(n as nat / 10 / 10).push(
                digit_char(n as nat / 10 % 10),
            ));
            assert(n as nat / 10 / 10 == n as nat / 100);
            assert(s@ =~= decimal_digits(n as nat));
        } else if n >= 10 {
            assert(decimal_digits(n as nat) == decimal_digits(n as nat / 10).push(
                digit_char(n as nat % 10),
            ));
            assert(s@ =~= decimal_digits(n as nat));
        } else {
            assert(s@ =~= decimal_digits(n as nat));
        }
    }
    s
}

/// Writes the console block for one entry.
pub fn format_entry(e: &DictEntry) -> (text: String)
    ensures
        text@ == entry_text(e@),
{
    let mut text = String::from_str("Simplified: ");
    text.append(e.simplified.as_str());
    text.append("\nPinyin Marks: ");
    text.append(e.pinyin_marks.as_str());
    text.append("\nEnglish: ");
    let english = join_texts(&e.english);
    text.append(english.as_str());
    text.append("\nMeasure Words: ");
    let measure_words = join_texts(&e.measure_words);
    text.append(measure_words.as_str());
    text.append("\nHSK: ");
    let level = u8_decimal(e.hsk);
    text.append(level.as_str());
    proof {
        assert(text@ =~= entry_text(e@));
    }
    text
}

} // verus!
