//! Dictionary lookup for a clicked word, and the popup text built from it.
//!
//! The lookup itself is the dictionary collaborator's; everything after it —
//! one formatted paragraph per entry — is computed and specified here.

use vstd::prelude::*;
use vstd::string::*;

use crate::layout::PresentableWord;

verus! {

/// One dictionary entry for a word, reduced to the fields this library
/// renders: the traditional form, the pinyin with tone marks, and the English
/// glosses.
#[derive(Debug, Clone)]
pub struct TranslationEntry {
    pub traditional: String,
    pub pinyin_marks: String,
    pub english: Vec<String>,
}

/// What the dictionary returns for a word, as plain values (traditional,
/// pinyin with marks, English glosses). The dictionary is a fixed table
/// compiled into the lookup crate, so the result depends on the word alone.
pub uninterp spec fn dict_translations(s: Seq<char>) -> Seq<(Seq<char>, Seq<char>, Seq<Seq<char>>)>;

/// Relies on chinese_dictionary::query_by_chinese: dictionary lookup of a
/// word against the embedded dictionary; the result depends on the word
/// alone. Only the fields this library renders are kept.
#[verifier::external_body]
pub fn query_translations(word: &str) -> (r: Vec<TranslationEntry>)
    ensures
        r@.len() == dict_translations(word@).len(),
        forall|i: int| 0 <= i < r@.len() ==> (#[trigger] r@[i]).traditional@ == dict_translations(word@)[i].0
            && r@[i].pinyin_marks@ == dict_translations(word@)[i].1
            && r@[i].english.deep_view() == dict_translations(word@)[i].2,
{
    chinese_dictionary::query_by_chinese(word)
        .iter()
        .map(|e| TranslationEntry {
            traditional: e.traditional.clone(),
            pinyin_marks: e.pinyin_marks.clone(),
            english: e.english.clone(),
        })
        .collect()
}

/// Joining gloss lines with a separator.
pub open spec fn spec_join(parts: Seq<Seq<char>>, sep: Seq<char>) -> Seq<char>
    decreases parts.len(),
{
    if parts.len() == 0 {
        Seq::empty()
    } else if parts.len() == 1 {
        parts[0]
    } else {
        spec_join(parts.drop_last(), sep) + sep + parts.last()
    }
}

/// One entry's popup paragraph: the traditional form, the pinyin in
/// parentheses, then the glosses one per indented line.
pub open spec fn spec_format_entry(trad: Seq<char>, pinyin: Seq<char>, english: Seq<Seq<char>>) -> Seq<char> {
    trad + "("@ + pinyin + "): \t"@ + spec_join(english, "\n          "@) + "\n"@
}

/// Formats one dictionary entry for the popup.
pub fn format_entry(entry: &TranslationEntry) -> (r: String)
    ensures
        r@ == spec_format_entry(entry.traditional@, entry.pinyin_marks@, entry.english.deep_view()),
{
    let mut s = String::new();
    s.append(entry.traditional.as_str());
    s.append("(");
    s.append(entry.pinyin_marks.as_str());
    s.append("): \t");
    let ghost glosses = entry.english.deep_view();
    let mut i: usize = 0;
    let ghost prefix = s@;
    while i < entry.english.len()
        invariant
            glosses == entry.english.deep_view(),
            i <= glosses.len(),
            s@ == prefix + spec_join(glosses.take(i as int), "\n          "@),
        decreases glosses.len() - i,
    {
        proof {
            assert(glosses.take(i + 1).drop_last() =~= glosses.take(i as int));
            assert(glosses.take(i + 1).last() == glosses[i as int]);
            assert(glosses[i as int] == entry.english@[i as int]@);
        }
        if i > 0 {
            s.append("\n          ");
        } else {
            proof {
                assert(glosses.take(0) =~= Seq::<Seq<char>>::empty());
                assert(glosses.take(1)[0] == glosses[0]);
            }
        }
        s.append(entry.english[i].as_str());
        i += 1;
    }
    proof {
        assert(glosses.take(glosses.len() as int) =~= glosses);
    }
    s.append("\n");
    s
}

/// Formats every entry the dictionary returned, in order.
pub fn format_entries(entries: &Vec<TranslationEntry>) -> (r: Vec<String>)
    ensures
        r@.len() == entries@.len(),
        forall|i: int| 0 <= i < r@.len() ==> (#[trigger] r@[i])@ == spec_format_entry(
            entries@[i].traditional@,
            entries@[i].pinyin_marks@,
            entries@[i].english.deep_view(),
        ),
{
    let mut out: Vec<String> = Vec::new();
    let mut i: usize = 0;
    while i < entries.len()
        invariant
            i <= entries@.len(),
            out@.len() == i,
            forall|m: int| 0 <= m < i ==> (#[trigger] out@[m])@ == spec_format_entry(
                entries@[m].traditional@,
                entries@[m].pinyin_marks@,
                entries@[m].english.deep_view(),
            ),
        decreases entries@.len() - i,
    {
        let line = format_entry(&entries[i]);
        out.push(line);
        i += 1;
    }
    out
}

impl PresentableWord {
    /// The translation popup's text for this word: one formatted paragraph
    /// per dictionary entry, in dictionary order.
    pub fn generate_translation_section(&self) -> (r: Vec<String>)
        ensures
            r@.len() == dict_translations(self@.text).len(),
            forall|i: int| 0 <= i < r@.len() ==> (#[trigger] r@[i])@ == spec_format_entry(
                dict_translations(self@.text)[i].0,
                dict_translations(self@.text)[i].1,
                dict_translations(self@.text)[i].2,
            ),
    {
        let entries = query_translations(self.text.as_str());
        format_entries(&entries)
    }
}

} // verus!
