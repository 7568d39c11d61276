//! Raw OCR words and the box-union merge used by the re-tokenizer.
//!
//! A raw word comes straight out of the markup parser: its text, the box the
//! OCR engine reported for it, and a confidence percentage. Merging folds a
//! run of consecutive raw words into one word whose text is the concatenation,
//! whose box is the component-wise union, and whose confidence is the minimum.

use vstd::prelude::*;

use crate::geometry::{PixelPoint, spec_point_min, spec_point_max, spec_box_contains};

verus! {

/// The mathematical model of a raw word: its text as a character sequence
/// and its box corners and confidence as unbounded integers.
pub struct WordModel {
    pub text: Seq<char>,
    pub min: PixelPoint,
    pub max: PixelPoint,
    pub confidence: int,
}

impl WordModel {
    pub open spec fn wf(self) -> bool {
        self.text.len() > 0
        && self.min.x <= self.max.x
        && self.min.y <= self.max.y
        && 0 <= self.confidence <= 100
    }
}

/// A word as reported by the OCR markup: approximate position, trustworthy
/// size, and an integer confidence between 0 and 100.
#[derive(Debug, Clone)]
pub struct HocrWord {
    pub text: String,
    pub min: PixelPoint,
    pub max: PixelPoint,
    pub confidence: u32,
}

impl View for HocrWord {
    type V = WordModel;

    open spec fn view(&self) -> WordModel {
        WordModel {
            text: self.text@,
            min: self.min,
            max: self.max,
            confidence: self.confidence as int,
        }
    }
}

impl HocrWord {
    pub open spec fn wf(self) -> bool {
        self@.wf()
    }

    pub fn new(text: String, min: PixelPoint, max: PixelPoint, confidence: u32) -> (r: Self)
        ensures
            r@ == (WordModel { text: text@, min, max, confidence: confidence as int }),
    {
        Self { text, min, max, confidence }
    }

    pub fn get_text(&self) -> (r: &String)
        ensures
            r@ == self@.text,
    {
        &self.text
    }

    pub fn get_min(&self) -> (r: PixelPoint)
        ensures
            r == self@.min,
    {
        self.min
    }

    /// The reported glyph height; sizes are the trustworthy part of the box.
    pub fn get_scale(&self) -> (r: i64)
        requires
            self@.min.y <= self@.max.y,
            self@.max.y - self@.min.y <= i64::MAX,
        ensures
            r == self@.max.y - self@.min.y,
    {
        self.max.y - self.min.y
    }

    /// An owned copy whose model is the same.
    pub fn duplicate(&self) -> (r: HocrWord)
        ensures
            r@ == self@,
    {
        HocrWord {
            text: self.text.clone(),
            min: self.min,
            max: self.max,
            confidence: self.confidence,
        }
    }

    /// Merge with a following word: concatenated text, box union,
    /// minimum confidence.
    pub fn merged_with(self, rhs: &HocrWord) -> (r: HocrWord)
        ensures
            r@ == spec_merge(self@, rhs@),
    {
        let mut text = self.text;
        text.append(rhs.text.as_str());
        HocrWord {
            text,
            min: self.min.component_min(rhs.min),
            max: self.max.component_max(rhs.max),
            confidence: if self.confidence <= rhs.confidence { self.confidence } else { rhs.confidence },
        }
    }
}

/// Merging two word models: text concatenation, component-wise box union,
/// minimum confidence.
pub open spec fn spec_merge(a: WordModel, b: WordModel) -> WordModel {
    WordModel {
        text: a.text + b.text,
        min: spec_point_min(a.min, b.min),
        max: spec_point_max(a.max, b.max),
        confidence: if a.confidence <= b.confidence { a.confidence } else { b.confidence },
    }
}

/// Folding a non-empty run of word models into one, left to right.
pub open spec fn spec_fold(ws: Seq<WordModel>) -> WordModel
    recommends
        ws.len() > 0,
    decreases ws.len(),
{
    if ws.len() <= 1 {
        ws[0]
    } else {
        spec_merge(spec_fold(ws.drop_last()), ws.last())
    }
}

/// The view of each word in a sequence.
pub open spec fn word_models(ws: Seq<HocrWord>) -> Seq<WordModel> {
    ws.map_values(|w: HocrWord| w@)
}

/// The concatenated text of a sequence of word models.
pub open spec fn concat_text(ws: Seq<WordModel>) -> Seq<char>
    decreases ws.len(),
{
    if ws.len() == 0 {
        Seq::empty()
    } else {
        concat_text(ws.drop_last()) + ws.last().text
    }
}

/// A fold's text is the concatenation of the texts of the folded words.
pub proof fn lemma_fold_text(ws: Seq<WordModel>)
    requires
        ws.len() > 0,
    ensures
        spec_fold(ws).text == concat_text(ws),
    decreases ws.len(),
{
    if ws.len() == 1 {
        assert(ws.drop_last().len() == 0);
        assert(concat_text(ws.drop_last()) =~= Seq::<char>::empty());
        assert(concat_text(ws) =~= ws[0].text);
    } else {
        lemma_fold_text(ws.drop_last());
    }
}

/// Box union is monotone: the box of a fold of raw words contains the box of
/// every raw word it subsumed.
pub proof fn lemma_fold_box_contains(ws: Seq<WordModel>, k: int)
    requires
        0 <= k < ws.len(),
    ensures
        spec_box_contains(spec_fold(ws).min, spec_fold(ws).max, ws[k].min, ws[k].max),
    decreases ws.len(),
{
    if ws.len() > 1 && k < ws.len() - 1 {
        lemma_fold_box_contains(ws.drop_last(), k);
    }
}

/// A fold's confidence is the minimum over the folded words: it never exceeds
/// any subsumed word's confidence, and some subsumed word attains it.
pub proof fn lemma_fold_confidence(ws: Seq<WordModel>)
    requires
        ws.len() > 0,
    ensures
        forall|k: int| 0 <= k < ws.len() ==> spec_fold(ws).confidence <= #[trigger] ws[k].confidence,
        exists|k: int| 0 <= k < ws.len() && spec_fold(ws).confidence == #[trigger] ws[k].confidence,
    decreases ws.len(),
{
    if ws.len() > 1 {
        lemma_fold_confidence(ws.drop_last());
        assert forall|k: int| 0 <= k < ws.len() implies spec_fold(ws).confidence <= #[trigger] ws[k].confidence by {
            if k < ws.len() - 1 {
                assert(ws.drop_last()[k] == ws[k]);
            }
        }
        let j = choose|j: int| 0 <= j < ws.drop_last().len() && spec_fold(ws.drop_last()).confidence == #[trigger] ws.drop_last()[j].confidence;
        if spec_fold(ws).confidence == spec_fold(ws.drop_last()).confidence {
            assert(ws[j] == ws.drop_last()[j]);
            assert(spec_fold(ws).confidence == ws[j].confidence);
        } else {
            assert(spec_fold(ws).confidence == ws[ws.len() - 1].confidence);
        }
    } else {
        assert(spec_fold(ws).confidence == ws[0].confidence);
    }
}

/// Folding preserves well-formedness.
pub proof fn lemma_fold_wf(ws: Seq<WordModel>)
    requires
        ws.len() > 0,
        forall|k: int| 0 <= k < ws.len() ==> (#[trigger] ws[k]).wf(),
    ensures
        spec_fold(ws).wf(),
    decreases ws.len(),
{
    if ws.len() > 1 {
        assert(forall|k: int| 0 <= k < ws.drop_last().len() ==> (#[trigger] ws.drop_last()[k]).wf());
        lemma_fold_wf(ws.drop_last());
    }
}

} // verus!
